//! What searches and constructions are for, in terms of features, edges and
//! distances alone.

use crate::controllers::connect::{
    edge, extended, first_unset, flagged_choice, hop, is_path, links_next, reached_flags, reaches,
};
use crate::controllers::link::{
    all_answered, all_returned, answered, link_outcome, one_answered, one_returned, pruned_outcome,
    sound_list,
};
use crate::controllers::neighborhood::sound_entries;
use crate::controllers::nndescent::sound_graph;
use crate::controllers::nsg::{
    build_outcome, carried, carries, found, lemma_targets_simple, targets, BuildConfig,
};
use crate::controllers::occlusion::PruneFactor;
use crate::controllers::prune::{completed, considered, lemma_pick_rule, picked};
use crate::controllers::search::{
    greater, in_order, lemma_full_pool_is_exact, lesser, made_up, measured,
    measured_first, search_outcome, steady_outcome, steady_start,
};
use crate::datalayer::algorithms::{DistanceAlgorithm, Medoid};
use crate::datalayer::nodes::{adjacency, graph_on, NsgNode};
use crate::order::{
    by_distance, distinct, lemma_few_below, lemma_insert_distinct, lemma_insert_lists,
    lemma_same_entries, lists, points, same_items, within, Entry,
};
use vstd::prelude::*;

verus! {

// ---------------------------------------------------------------------------
// Searches
// ---------------------------------------------------------------------------

/// What was measured is in the pool, or no nearer than the last of the pool.
proof fn lemma_measured_or_far<D: DistanceAlgorithm<ID>, ID>(
    features: Seq<ID>,
    adj: Seq<Seq<u32>>,
    enter: int,
    query: ID,
    ef: int,
    pool: Seq<Entry>,
    seen: Seq<Entry>,
    y: usize,
)
    requires
        search_outcome::<D, ID>(features, adj, enter, query, ef, pool, seen),
        adj[enter].no_duplicates(),
        lists(seen, y),
        ef > 0,
        features.len() > 0,
    ensures
        y < features.len(),
        pool.len() > 0,
        (exists|j: int| 0 <= j < pool.len() && (#[trigger] pool[j]).0 == y) || pool.last().1
            <= D::distance(features[y as int], query),
{
    let i = choose|i: int| 0 <= i < seen.len() && (#[trigger] seen[i]).0 == y;
    let width = lesser(ef, features.len() as int);
    assert(seen[i].1 == D::distance(features[y as int], query));
    assert(pool.take(width) =~= pool);
    if pool.take(width).contains(seen[i]) {
        let j = choose|j: int| 0 <= j < pool.len() && pool[j] == seen[i];
        assert(pool[j].0 == y);
    }
}

/// A search keeps as many nodes as it is given room for, each once, nearest first
/// and with its distance. Nothing nearer is one step away: where an edge of a
/// kept node leads, and where the edges of the entry point lead, is kept too, or
/// is no nearer than the last that is kept. With room for every node, every node
/// is kept.
pub proof fn lemma_search_closed<D: DistanceAlgorithm<ID>, ID>(
    features: Seq<ID>,
    adj: Seq<Seq<u32>>,
    enter: int,
    query: ID,
    ef: int,
    pool: Seq<Entry>,
    seen: Seq<Entry>,
)
    requires
        search_outcome::<D, ID>(features, adj, enter, query, ef, pool, seen),
        graph_on(adj, features.len() as int),
        0 <= enter < features.len() <= usize::MAX,
        adj[enter].no_duplicates(),
        ef >= 0,
    ensures
        pool.len() <= ef,
        pool.len() <= features.len(),
        pool.len() == ef || pool.len() == features.len(),
        forall|i: int|
            0 <= i < pool.len() ==> {
                &&& (#[trigger] pool[i]).0 < features.len()
                &&& pool[i].1 == D::distance(features[pool[i].0 as int], query)
            },
        forall|i: int, j: int|
            0 <= i < j < pool.len() ==> {
                &&& (#[trigger] pool[i]).0 != (#[trigger] pool[j]).0
                &&& pool[i].1 <= pool[j].1
            },
        forall|i: int, k: int|
            #![trigger adj[pool[i].0 as int][k]]
            0 <= i < pool.len() && 0 <= k < adj[pool[i].0 as int].len() ==> {
                let y = adj[pool[i].0 as int][k];
                ||| exists|j: int| 0 <= j < pool.len() && (#[trigger] pool[j]).0 == y
                ||| pool.last().1 <= D::distance(features[y as int], query)
            },
        forall|k: int|
            0 <= k < ef && k < adj[enter].len() && features.len() > 0 ==> {
                let y = #[trigger] adj[enter][k];
                ||| exists|j: int| 0 <= j < pool.len() && (#[trigger] pool[j]).0 == y
                ||| pool.last().1 <= D::distance(features[y as int], query)
            },
        ef >= features.len() ==> forall|y: usize|
            y < features.len() ==> exists|j: int|
                0 <= j < pool.len() && (#[trigger] pool[j]) == (
                    y,
                    #[trigger] D::distance(features[y as int], query),
                ),
{
    assert forall|i: int, k: int|
        #![trigger adj[pool[i].0 as int][k]]
        0 <= i < pool.len() && 0 <= k < adj[pool[i].0 as int].len() implies {
        let y = adj[pool[i].0 as int][k];
        ||| exists|j: int| 0 <= j < pool.len() && (#[trigger] pool[j]).0 == y
        ||| pool.last().1 <= D::distance(features[y as int], query)
    } by {
        let x = pool[i].0 as int;
        assert(lists(seen, adj[x][k] as usize));
        lemma_measured_or_far::<D, ID>(
            features,
            adj,
            enter,
            query,
            ef,
            pool,
            seen,
            adj[x][k] as usize,
        );
    }
    assert forall|k: int| 0 <= k < ef && k < adj[enter].len() && features.len() > 0 implies {
        let y = #[trigger] adj[enter][k];
        ||| exists|j: int| 0 <= j < pool.len() && (#[trigger] pool[j]).0 == y
        ||| pool.last().1 <= D::distance(features[y as int], query)
    } by {
        assert(seen[k].0 == adj[enter][k]);
        assert(lists(seen, adj[enter][k] as usize));
        lemma_measured_or_far::<D, ID>(
            features,
            adj,
            enter,
            query,
            ef,
            pool,
            seen,
            adj[enter][k] as usize,
        );
    }
    if ef >= features.len() {
        lemma_full_pool_is_exact::<D, ID>(features, adj, enter, query, ef, pool, seen);
        assert forall|y: usize| y < features.len() implies exists|j: int|
            0 <= j < pool.len() && (#[trigger] pool[j]) == (
                y,
                #[trigger] D::distance(features[y as int], query),
            ) by {
            assert(pool.contains((y, D::distance(features[y as int], query))));
        }
    }
}

/// What is listed stays listed while a list is made up.
proof fn lemma_made_up_keeps<D: DistanceAlgorithm<ID>, ID>(
    features: Seq<ID>,
    query: ID,
    width: int,
    s: Seq<Entry>,
    order: Seq<usize>,
    x: usize,
)
    ensures
        lists(s, x) ==> lists(made_up::<D, ID>(features, query, width, s, order), x),
        made_up::<D, ID>(features, query, width, s, order).len() <= s.len() + order.len(),
        s.len() <= made_up::<D, ID>(features, query, width, s, order).len(),
    decreases order.len(),
{
    if order.len() > 0 {
        lemma_made_up_keeps::<D, ID>(features, query, width, s, order.drop_last(), x);
        let t = made_up::<D, ID>(features, query, width, s, order.drop_last());
        let r = made_up::<D, ID>(features, query, width, s, order);
        if lists(s, x) {
            let i = choose|i: int| 0 <= i < t.len() && (#[trigger] t[i]).0 == x;
            assert(r[i].0 == x);
        }
    }
}

/// As many nodes of the order as there is room for are listed.
proof fn lemma_made_up_lists<D: DistanceAlgorithm<ID>, ID>(
    features: Seq<ID>,
    query: ID,
    width: int,
    s: Seq<Entry>,
    order: Seq<usize>,
    j: int,
)
    requires
        0 <= j < order.len(),
        s.len() + j < width,
        order[j] < features.len(),
    ensures
        lists(made_up::<D, ID>(features, query, width, s, order), order[j]),
    decreases order.len(),
{
    let shorter = order.drop_last();
    let t = made_up::<D, ID>(features, query, width, s, shorter);
    let r = made_up::<D, ID>(features, query, width, s, order);
    if j < shorter.len() {
        lemma_made_up_lists::<D, ID>(features, query, width, s, shorter, j);
        let i = choose|i: int| 0 <= i < t.len() && (#[trigger] t[i]).0 == order[j];
        assert(r[i].0 == order[j]);
    } else {
        lemma_made_up_keeps::<D, ID>(features, query, width, s, shorter, order[j]);
        if !lists(t, order[j]) {
            assert(r[t.len() as int].0 == order[j]);
        }
    }
}

/// What a query is answered with.
///
/// There are as many answers as asked for, as far as the pool and the features
/// go: each a node with its distance and feature, each once, nearest first. What
/// is left out of the places that the search came to is no nearer than the last
/// answer: the ends of the edges of every answer, the ends of the edges of the
/// entry point, and, where these do not fill the pool, the nodes that make it up
/// along the order. The first answer is the nearest of all that was measured.
pub proof fn lemma_answers_are_nearest<D: DistanceAlgorithm<ID>, ID>(
    features: Seq<ID>,
    adj: Seq<Seq<u32>>,
    enter: int,
    query: ID,
    ef: int,
    order: Seq<usize>,
    pool: Seq<Entry>,
    seen: Seq<Entry>,
    k: int,
    r: Seq<(u32, usize, &ID)>,
)
    requires
        steady_outcome::<D, ID>(features, adj, enter, query, ef, order, pool, seen),
        found(features, pool, k, r),
        graph_on(adj, features.len() as int),
        0 <= enter < features.len() <= usize::MAX,
        adj[enter].no_duplicates(),
        ef >= 0,
        k >= 0,
    ensures
        r.len() <= k,
        r.len() <= ef,
        r.len() <= features.len(),
        r.len() == k || r.len() == ef || r.len() == features.len(),
        forall|i: int|
            0 <= i < r.len() ==> {
                &&& (#[trigger] r[i]).1 < features.len()
                &&& *r[i].2 == features[r[i].1 as int]
                &&& r[i].0 == D::distance(features[r[i].1 as int], query)
            },
        forall|i: int, j: int|
            0 <= i < j < r.len() ==> {
                &&& (#[trigger] r[i]).1 != (#[trigger] r[j]).1
                &&& r[i].0 <= r[j].0
            },
        forall|i: int, a: int|
            #![trigger adj[r[i].1 as int][a]]
            0 <= i < r.len() && 0 <= a < adj[r[i].1 as int].len() ==> {
                let y = adj[r[i].1 as int][a];
                ||| exists|j: int| 0 <= j < r.len() && (#[trigger] r[j]).1 == y
                ||| r.last().0 <= D::distance(features[y as int], query)
            },
        forall|a: int|
            0 <= a < ef && a < adj[enter].len() && k > 0 ==> {
                let y = #[trigger] adj[enter][a];
                ||| exists|j: int| 0 <= j < r.len() && (#[trigger] r[j]).1 == y
                ||| r.last().0 <= D::distance(features[y as int], query)
            },
        forall|a: int|
            0 <= a < order.len() && adj[enter].len() + a < ef && adj[enter].len() + a
                < features.len() && (#[trigger] order[a]) < features.len() && k > 0 ==> {
                ||| exists|j: int| 0 <= j < r.len() && (#[trigger] r[j]).1 == order[a]
                ||| r.last().0 <= D::distance(features[order[a] as int], query)
            },
        forall|p: int|
            0 <= p < pool.len() && k > 0 ==> {
                ||| exists|j: int| 0 <= j < r.len() && (#[trigger] r[j]).1 == pool[p].0
                ||| r.last().0 <= (#[trigger] pool[p]).1
            },
        forall|p: int|
            0 <= p < seen.len() && k > 0 && ef > 0 ==> {
                let y = (#[trigger] seen[p]).0;
                &&& r[0].0 <= D::distance(features[y as int], query)
                &&& (exists|j: int| 0 <= j < r.len() && (#[trigger] r[j]).1 == y) || r.last().0
                    <= D::distance(features[y as int], query)
            },
{
    let n = features.len() as int;
    lemma_search_closed::<D, ID>(features, adj, enter, query, ef, pool, seen);
    assert forall|i: int| 0 <= i < r.len() implies #[trigger] r[i].1 == pool[i].0 && r[i].0
        == pool[i].1 by {}
    assert forall|i: int, a: int|
        #![trigger adj[r[i].1 as int][a]]
        0 <= i < r.len() && 0 <= a < adj[r[i].1 as int].len() implies {
        let y = adj[r[i].1 as int][a];
        ||| exists|j: int| 0 <= j < r.len() && (#[trigger] r[j]).1 == y
        ||| r.last().0 <= D::distance(features[y as int], query)
    } by {
        let y = adj[r[i].1 as int][a];
        assert(y == adj[pool[i].0 as int][a]);
        lemma_pool_to_answers::<D, ID>(features, query, pool, k, r, y as usize);
    }
    assert forall|a: int| 0 <= a < ef && a < adj[enter].len() && k > 0 implies {
        let y = #[trigger] adj[enter][a];
        ||| exists|j: int| 0 <= j < r.len() && (#[trigger] r[j]).1 == y
        ||| r.last().0 <= D::distance(features[y as int], query)
    } by {
        lemma_pool_to_answers::<D, ID>(features, query, pool, k, r, adj[enter][a] as usize);
    }
    assert forall|a: int|
        0 <= a < order.len() && adj[enter].len() + a < ef && adj[enter].len() + a < n && (
        #[trigger] order[a]) < n && k > 0 implies {
        ||| exists|j: int| 0 <= j < r.len() && (#[trigger] r[j]).1 == order[a]
        ||| r.last().0 <= D::distance(features[order[a] as int], query)
    } by {
        let taken = adj[enter].len() as int;
        let width = lesser(ef, n);
        let first = measured_first::<D, ID>(features, query, adj[enter], taken);
        let whole = order + in_order(n as nat);
        assert(whole[a] == order[a]);
        lemma_made_up_lists::<D, ID>(features, query, width, first, whole, a);
        let start = steady_start::<D, ID>(features, adj, enter, query, ef, order);
        assert(lists(start, order[a]));
        let i = choose|i: int| 0 <= i < start.len() && (#[trigger] start[i]).0 == order[a];
        assert(seen.take(greater(taken, width))[i] == seen[i]);
        assert(seen[i].0 == order[a]);
        assert(lists(seen, order[a]));
        lemma_measured_or_far::<D, ID>(features, adj, enter, query, ef, pool, seen, order[a]);
        lemma_pool_to_answers::<D, ID>(features, query, pool, k, r, order[a]);
    }
    assert forall|p: int| 0 <= p < pool.len() && k > 0 implies {
        ||| exists|j: int| 0 <= j < r.len() && (#[trigger] r[j]).1 == pool[p].0
        ||| r.last().0 <= (#[trigger] pool[p]).1
    } by {
        lemma_pool_to_answers::<D, ID>(features, query, pool, k, r, pool[p].0);
    }
    assert forall|p: int| 0 <= p < seen.len() && k > 0 && ef > 0 implies {
        let y = (#[trigger] seen[p]).0;
        &&& r[0].0 <= D::distance(features[y as int], query)
        &&& (exists|j: int| 0 <= j < r.len() && (#[trigger] r[j]).1 == y) || r.last().0
            <= D::distance(features[y as int], query)
    } by {
        let y = seen[p].0;
        assert(lists(seen, y));
        lemma_measured_or_far::<D, ID>(features, adj, enter, query, ef, pool, seen, y);
        lemma_pool_to_answers::<D, ID>(features, query, pool, k, r, y);
        if exists|j: int| 0 <= j < r.len() && (#[trigger] r[j]).1 == y {
            let j = choose|j: int| 0 <= j < r.len() && (#[trigger] r[j]).1 == y;
            assert(r[0].0 <= r[j].0);
        }
    }
}

/// What is in the pool or far is among the answers or far.
proof fn lemma_pool_to_answers<D: DistanceAlgorithm<ID>, ID>(
    features: Seq<ID>,
    query: ID,
    pool: Seq<Entry>,
    k: int,
    r: Seq<(u32, usize, &ID)>,
    y: usize,
)
    requires
        found(features, pool, k, r),
        k > 0,
        pool.len() > 0,
        forall|i: int, j: int|
            0 <= i < j < pool.len() ==> (#[trigger] pool[i]).1 <= (#[trigger] pool[j]).1,
        forall|i: int|
            0 <= i < pool.len() ==> (#[trigger] pool[i]).1 == D::distance(
                features[pool[i].0 as int],
                query,
            ),
        (exists|j: int| 0 <= j < pool.len() && (#[trigger] pool[j]).0 == y) || pool.last().1
            <= D::distance(features[y as int], query),
    ensures
        (exists|j: int| 0 <= j < r.len() && (#[trigger] r[j]).1 == y) || r.last().0
            <= D::distance(features[y as int], query),
{
    assert(r.last() == r[r.len() - 1]);
    assert(r[r.len() - 1].0 == pool[r.len() - 1].1);
    assert(pool[r.len() - 1].1 <= pool[pool.len() - 1].1);
    if exists|j: int| 0 <= j < pool.len() && (#[trigger] pool[j]).0 == y {
        let j = choose|j: int| 0 <= j < pool.len() && (#[trigger] pool[j]).0 == y;
        if j < r.len() {
            assert(r[j].1 == y);
        } else {
            assert(pool[r.len() - 1].1 <= pool[j].1);
        }
    }
}

// ---------------------------------------------------------------------------
// Edges
// ---------------------------------------------------------------------------

/// What completing a list of candidates does to it.
proof fn lemma_completed_lists<D: DistanceAlgorithm<ID>, ID>(
    features: Seq<ID>,
    targets: Seq<u32>,
    node: int,
    cands: Seq<Entry>,
)
    requires
        forall|i: int| 0 <= i < targets.len() ==> (#[trigger] targets[i]) < features.len(),
        distinct(cands),
        forall|i: int|
            0 <= i < cands.len() ==> (#[trigger] cands[i]).0 < features.len() && cands[i].1
                == D::distance(features[cands[i].0 as int], features[node]),
    ensures
        ({
            let s = completed::<D, ID>(features, targets, node, cands);
            &&& distinct(s)
            &&& forall|i: int|
                0 <= i < s.len() ==> (#[trigger] s[i]).0 < features.len() && s[i].1
                    == D::distance(features[s[i].0 as int], features[node])
            &&& forall|x: usize| #[trigger] lists(cands, x) ==> lists(s, x)
            &&& forall|i: int|
                0 <= i < targets.len() ==> lists(s, #[trigger] targets[i] as usize)
            &&& cands.len() <= s.len()
        }),
    decreases targets.len(),
{
    if targets.len() > 0 {
        let shorter = targets.drop_last();
        assert forall|i: int| 0 <= i < shorter.len() implies (#[trigger] shorter[i])
            < features.len() by {
            assert(shorter[i] == targets[i]);
        }
        lemma_completed_lists::<D, ID>(features, shorter, node, cands);
        let s = completed::<D, ID>(features, shorter, node, cands);
        let t = targets.last() as usize;
        let r = completed::<D, ID>(features, targets, node, cands);
        assert(targets[targets.len() - 1] < features.len());
        if !lists(s, t) {
            let e = (t, D::distance(features[t as int], features[node]));
            assert(r =~= s.insert(s.len() as int, e));
            lemma_insert_distinct(s, s.len() as int, e);
            lemma_insert_lists(s, s.len() as int, e);
            assert(r[s.len() as int].0 == t);
        }
        assert(lists(r, t));
        assert forall|i: int| 0 <= i < targets.len() implies lists(
            r,
            #[trigger] targets[i] as usize,
        ) by {
            if i < shorter.len() {
                assert(shorter[i] == targets[i]);
                assert(lists(s, shorter[i] as usize));
            }
        }
    }
}

/// The sorted candidates that the edges of a node are picked out of.
proof fn lemma_candidates<D: DistanceAlgorithm<ID>, ID>(
    features: Seq<ID>,
    adj: Seq<Seq<u32>>,
    enter: int,
    m: int,
    c_max: int,
    ef: int,
    factor: PruneFactor,
    node: int,
    list: Seq<Entry>,
) -> (sorted: Seq<Entry>)
    requires
        pruned_outcome::<D, ID>(features, adj, enter, (m, c_max, ef), factor, node, list),
        graph_on(adj, features.len() as int),
        0 <= enter < features.len() <= usize::MAX,
        0 <= node < features.len(),
        adj[enter].no_duplicates(),
        ef >= 0,
    ensures
        by_distance(sorted),
        forall|p: int, q: int|
            0 <= p < q < sorted.len() ==> (#[trigger] sorted[p]).0 != (
            #[trigger] sorted[q]).0,
        forall|p: int|
            0 <= p < sorted.len() ==> {
                &&& (#[trigger] sorted[p]).0 < features.len()
                &&& sorted[p].1 == D::distance(
                    features[sorted[p].0 as int],
                    features[node],
                )
            },
        forall|k: int|
            0 <= k < adj[node].len() ==> lists(sorted, #[trigger] adj[node][k] as usize),
        forall|k: int|
            0 <= k < adj[enter].len() && k < ef ==> lists(
                sorted,
                #[trigger] adj[enter][k] as usize,
            ),
        sorted.len() >= ef || sorted.len() == features.len(),
        ef >= features.len() ==> forall|x: usize|
            x < features.len() ==> #[trigger] lists(sorted, x),
        list == picked::<D, ID>(
            features,
            factor,
            m,
            considered(sorted, node as usize, c_max),
        ),
{
    let (pool, seen, sorted) = choose|pool: Seq<Entry>, seen: Seq<Entry>, sorted: Seq<Entry>|
        {
            &&& #[trigger] search_outcome::<D, ID>(
                features,
                adj,
                enter,
                features[node],
                ef,
                pool,
                seen,
            )
            &&& same_items(completed::<D, ID>(features, adj[node], node, seen), sorted)
            &&& #[trigger] by_distance(sorted)
            &&& list == picked::<D, ID>(
                features,
                factor,
                m,
                considered(sorted, node as usize, c_max),
            )
        };
    let all = completed::<D, ID>(features, adj[node], node, seen);
    assert forall|k: int| 0 <= k < adj[node].len() implies (#[trigger] adj[node][k])
        < features.len() by {}
    lemma_completed_lists::<D, ID>(features, adj[node], node, seen);
    lemma_same_entries(all, sorted);
    assert forall|p: int| 0 <= p < sorted.len() implies {
        &&& (#[trigger] sorted[p]).0 < features.len()
        &&& sorted[p].1 == D::distance(features[sorted[p].0 as int], features[node])
    } by {
        assert(sorted.contains(sorted[p]));
        let q = choose|q: int| 0 <= q < all.len() && all[q] == sorted[p];
        assert(all[q].0 < features.len());
    }
    assert forall|k: int| 0 <= k < adj[enter].len() && k < ef implies lists(
        sorted,
        #[trigger] adj[enter][k] as usize,
    ) by {
        assert(seen[k].0 == adj[enter][k]);
        assert(lists(seen, adj[enter][k] as usize));
        assert(lists(all, adj[enter][k] as usize));
    }
    assert forall|k: int| 0 <= k < adj[node].len() implies lists(
        sorted,
        #[trigger] adj[node][k] as usize,
    ) by {
        assert(lists(all, adj[node][k] as usize));
    }
    if ef >= features.len() {
        lemma_full_pool_is_exact::<D, ID>(features, adj, enter, features[node], ef, pool, seen);
        assert forall|x: usize| x < features.len() implies #[trigger] lists(sorted, x) by {
            let e = (x, D::distance(features[x as int], features[node]));
            assert(pool.contains(e));
            let i = choose|i: int| 0 <= i < pool.len() && pool[i] == e;
            assert(seen.contains(pool[i]));
            let j = choose|j: int| 0 <= j < seen.len() && seen[j] == e;
            assert(seen[j].0 == x);
            assert(lists(seen, x));
            assert(lists(all, x));
        }
    }
    assert(sorted.len() >= ef || sorted.len() == features.len()) by {
        let width = lesser(ef, features.len() as int);
        assert(sorted.len() == all.len());
        if sorted.len() < ef {
            let pts = points(sorted);
            assert forall|i: int, j: int|
                0 <= i < pts.len() && 0 <= j < pts.len() && i != j implies pts[i] != pts[j] by {
                assert(pts[i] == sorted[i].0 && pts[j] == sorted[j].0);
                if i < j {
                    assert(sorted[i].0 != sorted[j].0);
                } else {
                    assert(sorted[j].0 != sorted[i].0);
                }
            }
            assert forall|i: int| 0 <= i < pts.len() implies (#[trigger] pts[i])
                < features.len() by {
                assert(pts[i] == sorted[i].0);
            }
            lemma_few_below(pts, features.len());
        }
    }
    sorted
}

/// Which edges are picked for a node: `m` of them, or as many as there are
/// candidates to consider.
///
/// Candidates are all that a search for the node measures and all that it has
/// edges to, each with its distance to the node: with room for every node in the
/// search, all nodes. The node itself is passed over where it comes first, and so
/// is what comes from place `c_max` on. Which of the others are picked is said as
/// for a sorted list: directions of their own first, then refilled to `m`,
/// nearest first.
#[verifier::spinoff_prover]
pub proof fn lemma_edges_of_node<D: DistanceAlgorithm<ID>, ID>(
    features: Seq<ID>,
    adj: Seq<Seq<u32>>,
    enter: int,
    m: int,
    c_max: int,
    ef: int,
    factor: PruneFactor,
    node: int,
    list: Seq<Entry>,
) -> (w: (Seq<Entry>, Seq<Entry>, int))
    requires
        pruned_outcome::<D, ID>(features, adj, enter, (m, c_max, ef), factor, node, list),
        graph_on(adj, features.len() as int),
        0 <= enter < features.len() <= usize::MAX,
        0 <= node < features.len(),
        adj[enter].no_duplicates(),
        ef >= 0,
    ensures
        ({
            let (sorted, cands, c) = w;
            let from: int = if sorted.len() > 0 && sorted[0].0 == node {
                1
            } else {
                0
            };
            let to: int = if from >= sorted.len() {
                from
            } else if c_max <= from {
                from + 1
            } else if c_max < sorted.len() {
                c_max
            } else {
                sorted.len() as int
            };
            &&& by_distance(sorted)
            &&& by_distance(cands)
            &&& cands == sorted.subrange(from, to)
            &&& forall|p: int, q: int|
                0 <= p < q < sorted.len() ==> (#[trigger] sorted[p]).0 != (
                #[trigger] sorted[q]).0
            &&& forall|p: int|
                0 <= p < sorted.len() ==> {
                    &&& (#[trigger] sorted[p]).0 < features.len()
                    &&& sorted[p].1 == D::distance(
                        features[sorted[p].0 as int],
                        features[node],
                    )
                }
            &&& forall|k: int|
                0 <= k < adj[node].len() ==> lists(sorted, #[trigger] adj[node][k] as usize)
            &&& forall|k: int|
                0 <= k < adj[enter].len() && k < ef ==> lists(
                    sorted,
                    #[trigger] adj[enter][k] as usize,
                )
            &&& sorted.len() >= ef || sorted.len() == features.len()
            &&& ef >= features.len() ==> forall|x: usize|
                x < features.len() ==> #[trigger] lists(sorted, x)
            &&& list.len() == if cands.len() <= m || cands.len() <= 1 {
                cands.len() as int
            } else if m <= 1 {
                1
            } else {
                m
            }
            &&& forall|e: Entry| #[trigger] list.contains(e) ==> cands.contains(e)
            &&& 0 <= c <= list.len()
            &&& by_distance(list.take(c))
            &&& by_distance(list.skip(c))
            &&& forall|i: int, j: int|
                0 <= i < j < c ==> !((#[trigger] list[i]).0 == (#[trigger] list[j]).0
                    || factor.scales_below(
                    D::distance(features[list[i].0 as int], features[list[j].0 as int]),
                    list[j].1,
                ))
            &&& forall|j: int|
                c <= j < list.len() ==> list.contains(#[trigger] list[j]) && exists|i: int|
                    {
                        &&& 0 <= i < c
                        &&& (#[trigger] list[i]).1 <= list[j].1
                        &&& list[i].0 == list[j].0 || factor.scales_below(
                            D::distance(features[list[i].0 as int], features[list[j].0 as int]),
                            list[j].1,
                        )
                    }
            &&& forall|p: int|
                0 <= p < cands.len() && !list.contains(#[trigger] cands[p]) ==> {
                    ||| (c == list.len() && forall|i: int|
                        0 <= i < list.len() ==> (#[trigger] list[i]).1 <= cands[p].1)
                    ||| ((forall|j: int|
                        c <= j < list.len() ==> (#[trigger] list[j]).1 <= cands[p].1)
                        && exists|i: int|
                        {
                            &&& 0 <= i < c
                            &&& (#[trigger] list[i]).1 <= cands[p].1
                            &&& list[i].0 == cands[p].0 || factor.scales_below(
                                D::distance(
                                    features[list[i].0 as int],
                                    features[cands[p].0 as int],
                                ),
                                cands[p].1,
                            )
                        })
                }
        }),
{
    let sorted = lemma_candidates::<D, ID>(
        features,
        adj,
        enter,
        m,
        c_max,
        ef,
        factor,
        node,
        list,
    );
    let from: int = if sorted.len() > 0 && sorted[0].0 == node {
        1
    } else {
        0
    };
    let to: int = if from >= sorted.len() {
        from
    } else if c_max <= from {
        from + 1
    } else if c_max < sorted.len() {
        c_max
    } else {
        sorted.len() as int
    };
    let cands = sorted.subrange(from, to);
    assert(considered(sorted, node as usize, c_max) =~= cands);
    assert(by_distance(cands)) by {
        assert forall|i: int, j: int| 0 <= i <= j < cands.len() implies (#[trigger] cands[i]).1
            <= (#[trigger] cands[j]).1 by {
            assert(sorted[from + i].1 <= sorted[from + j].1);
        }
    }
    let c = lemma_pick_rule::<D, ID>(features, factor, m, cands);
    (sorted, cands, c)
}

/// What becomes of the edges `before` of a node when `node` has an edge to it.
///
/// Where the edge back is there, nothing changes. Where there is room for it, it
/// is added. Otherwise `m` are picked out of all of them, as out of any sorted
/// list.
pub proof fn lemma_answer_rule<D: DistanceAlgorithm<ID>, ID>(
    features: Seq<ID>,
    factor: PruneFactor,
    m: int,
    node: usize,
    d: u32,
    before: Seq<Entry>,
    after: Seq<Entry>,
) -> (w: (Seq<Entry>, int))
    requires
        answered::<D, ID>(features, factor, m, node, d, before, after),
    ensures
        (exists|i: int| 0 <= i < before.len() && (#[trigger] before[i]).0 == node) ==> after
            == before,
        !(exists|i: int| 0 <= i < before.len() && (#[trigger] before[i]).0 == node)
            && before.len() < m ==> after == before.push((node, d)),
        !(exists|i: int| 0 <= i < before.len() && (#[trigger] before[i]).0 == node)
            && before.len() >= m ==> {
                let (sorted, c) = w;
                &&& sorted.to_multiset() =~= before.push((node, d)).to_multiset()
                &&& by_distance(sorted)
                &&& after.len() == if sorted.len() <= m || sorted.len() <= 1 {
                    sorted.len() as int
                } else if m <= 1 {
                    1
                } else {
                    m
                }
                &&& forall|e: Entry| #[trigger] after.contains(e) ==> sorted.contains(e)
                &&& 0 <= c <= after.len()
                &&& by_distance(after.take(c))
                &&& by_distance(after.skip(c))
                &&& forall|i: int, j: int|
                    0 <= i < j < c ==> !((#[trigger] after[i]).0 == (#[trigger] after[j]).0
                        || factor.scales_below(
                        D::distance(features[after[i].0 as int], features[after[j].0 as int]),
                        after[j].1,
                    ))
                &&& forall|j: int|
                    c <= j < after.len() ==> after.contains(#[trigger] after[j]) && exists|i: int|
                        {
                            &&& 0 <= i < c
                            &&& (#[trigger] after[i]).1 <= after[j].1
                            &&& after[i].0 == after[j].0 || factor.scales_below(
                                D::distance(features[after[i].0 as int], features[after[j].0 as int]),
                                after[j].1,
                            )
                        }
                &&& forall|p: int|
                    0 <= p < sorted.len() && !after.contains(#[trigger] sorted[p]) ==> {
                        ||| (c == after.len() && forall|i: int|
                            0 <= i < after.len() ==> (#[trigger] after[i]).1 <= sorted[p].1)
                        ||| ((forall|j: int|
                            c <= j < after.len() ==> (#[trigger] after[j]).1 <= sorted[p].1)
                            && exists|i: int|
                            {
                                &&& 0 <= i < c
                                &&& (#[trigger] after[i]).1 <= sorted[p].1
                                &&& after[i].0 == sorted[p].0 || factor.scales_below(
                                    D::distance(
                                        features[after[i].0 as int],
                                        features[sorted[p].0 as int],
                                    ),
                                    sorted[p].1,
                                )
                            })
                    }
            },
{
    if !lists(before, node) && before.len() >= m {
        let sorted = choose|sorted: Seq<Entry>|
            {
                &&& same_items(before.push((node, d)), sorted)
                &&& #[trigger] by_distance(sorted)
                &&& after == picked::<D, ID>(features, factor, m, sorted)
            };
        let c = lemma_pick_rule::<D, ID>(features, factor, m, sorted);
        (sorted, c)
    } else {
        (before, 0)
    }
}

/// What one answer does to a list.
proof fn lemma_answered_step<D: DistanceAlgorithm<ID>, ID>(
    features: Seq<ID>,
    factor: PruneFactor,
    m: int,
    node: usize,
    d: u32,
    before: Seq<Entry>,
    after: Seq<Entry>,
)
    requires
        answered::<D, ID>(features, factor, m, node, d, before, after),
    ensures
        before.len() >= m ==> after.len() >= m,
        forall|x: usize| #[trigger] lists(before, x) ==> lists(after, x) || after.len() >= m,
        forall|x: usize| #[trigger] lists(after, x) ==> lists(before, x) || x == node,
        lists(after, node) || after.len() >= m,
{
    if !lists(before, node) {
        let e = (node, d);
        let more = before.push(e);
        assert(more =~= before.insert(before.len() as int, e));
        lemma_insert_lists(before, before.len() as int, e);
        if before.len() + 1 > m {
            let sorted = choose|sorted: Seq<Entry>|
                {
                    &&& same_items(more, sorted)
                    &&& #[trigger] by_distance(sorted)
                    &&& after == picked::<D, ID>(features, factor, m, sorted)
                };
            lemma_same_entries(more, sorted);
            let c = lemma_pick_rule::<D, ID>(features, factor, m, sorted);
            assert forall|x: usize| #[trigger] lists(after, x) implies lists(before, x) || x
                == node by {
                let p = choose|p: int| 0 <= p < after.len() && (#[trigger] after[p]).0 == x;
                assert(after.contains(after[p]));
                assert(sorted.contains(after[p]));
                let q = choose|q: int| 0 <= q < sorted.len() && sorted[q] == after[p];
                assert(sorted[q].0 == x);
                assert(lists(sorted, x));
                assert(lists(more, x));
            }
        }
    }
}

/// What answering the edges of one node does to list `i`.
proof fn lemma_answered_lists<D: DistanceAlgorithm<ID>, ID>(
    features: Seq<ID>,
    factor: PruneFactor,
    m: int,
    node: usize,
    selected: Seq<Entry>,
    before: Seq<Seq<Entry>>,
    after: Seq<Seq<Entry>>,
    i: usize,
)
    requires
        all_answered::<D, ID>(features, factor, m, node, selected, before, after),
        within(selected, before.len() as int),
        i < before.len(),
    ensures
        after.len() == before.len(),
        before[i as int].len() >= m ==> after[i as int].len() >= m,
        forall|x: usize| #[trigger]
            lists(before[i as int], x) ==> lists(after[i as int], x) || after[i as int].len() >= m,
        forall|x: usize| #[trigger]
            lists(after[i as int], x) ==> lists(before[i as int], x) || (x == node && lists(
                selected,
                i,
            )),
        lists(selected, i) ==> lists(after[i as int], node) || after[i as int].len() >= m,
        !lists(selected, i) ==> after[i as int] == before[i as int],
    decreases selected.len(),
{
    if selected.len() > 0 {
        let shorter = selected.drop_last();
        let e = selected.last();
        let mid = choose|mid: Seq<Seq<Entry>>|
            {
                &&& all_answered::<D, ID>(features, factor, m, node, shorter, before, mid)
                &&& #[trigger] one_answered::<D, ID>(features, factor, m, node, e, mid, after)
            };
        assert(within(shorter, before.len() as int)) by {
            assert forall|p: int| 0 <= p < shorter.len() implies (#[trigger] shorter[p]).0
                < before.len() by {
                assert(shorter[p] == selected[p]);
            }
        }
        assert(selected[selected.len() - 1].0 < before.len());
        lemma_answered_lists::<D, ID>(features, factor, m, node, shorter, before, mid, i);
        assert(selected =~= shorter.insert(shorter.len() as int, e));
        lemma_insert_lists(shorter, shorter.len() as int, e);
        lemma_answered_step::<D, ID>(
            features,
            factor,
            m,
            node,
            e.1,
            mid[e.0 as int],
            after[e.0 as int],
        );
        if i != e.0 {
            assert(after[i as int] == mid[i as int]);
        }
    }
}

/// The three laws of linking, for the nodes below `k`.
proof fn lemma_returned_lists<D: DistanceAlgorithm<ID>, ID>(
    features: Seq<ID>,
    factor: PruneFactor,
    m: int,
    k: nat,
    chosen: Seq<Seq<Entry>>,
    cut: Seq<Seq<Entry>>,
)
    requires
        all_returned::<D, ID>(features, factor, m, k, chosen, cut),
        k <= chosen.len() <= usize::MAX,
        forall|a: int|
            0 <= a < chosen.len() ==> within(#[trigger] chosen[a], chosen.len() as int),
    ensures
        cut.len() == chosen.len(),
        forall|a: int, x: usize|
            0 <= a < chosen.len() && #[trigger] lists(chosen[a], x) ==> lists(cut[a], x)
                || cut[a].len() >= m,
        forall|a: int, x: usize|
            0 <= a < cut.len() && #[trigger] lists(cut[a], x) ==> x < cut.len() && (lists(
                chosen[a],
                x,
            ) || lists(chosen[x as int], a as usize)),
        forall|a: int, x: usize|
            0 <= a < cut.len() && #[trigger] lists(cut[a], x) && (a < k || !lists(chosen[a], x))
                ==> lists(cut[x as int], a as usize) || cut[x as int].len() >= m,
    decreases k,
{
    assert forall|a: int, x: usize|
        0 <= a < chosen.len() && #[trigger] lists(chosen[a], x) implies x < chosen.len() by {
        let p = choose|p: int| 0 <= p < chosen[a].len() && (#[trigger] chosen[a][p]).0 == x;
        assert(within(chosen[a], chosen.len() as int));
    }
    if k > 0 {
        let node = k - 1;
        let mid = choose|mid: Seq<Seq<Entry>>|
            {
                &&& all_returned::<D, ID>(features, factor, m, (k - 1) as nat, chosen, mid)
                &&& #[trigger] one_returned::<D, ID>(features, factor, m, k - 1, mid, cut)
            };
        lemma_returned_lists::<D, ID>(features, factor, m, (k - 1) as nat, chosen, mid);
        let selected = mid[node];
        let base = mid.update(node, Seq::empty());
        let out = choose|out: Seq<Seq<Entry>>|
            {
                &&& #[trigger] all_answered::<D, ID>(
                    features,
                    factor,
                    m,
                    node as usize,
                    selected,
                    base,
                    out,
                )
                &&& cut == out.update(node, selected)
            };
        assert(within(selected, base.len() as int)) by {
            assert forall|p: int| 0 <= p < selected.len() implies (#[trigger] selected[p]).0
                < base.len() by {
                assert(lists(mid[node], selected[p].0));
            }
        }
        lemma_answered_lists::<D, ID>(
            features,
            factor,
            m,
            node as usize,
            selected,
            base,
            out,
            0usize,
        );
        assert(cut[node] == mid[node]);
        // what holds of every other list
        assert forall|a: int| 0 <= a < cut.len() && a != node implies {
            &&& mid[a].len() >= m ==> cut[a].len() >= m
            &&& forall|x: usize| #[trigger]
                lists(mid[a], x) ==> lists(cut[a], x) || cut[a].len() >= m
            &&& forall|x: usize| #[trigger]
                lists(cut[a], x) ==> lists(mid[a], x) || (x == node && lists(
                    mid[node],
                    a as usize,
                ))
            &&& lists(mid[node], a as usize) ==> lists(cut[a], node as usize) || cut[a].len() >= m
        } by {
            lemma_answered_lists::<D, ID>(
                features,
                factor,
                m,
                node as usize,
                selected,
                base,
                out,
                a as usize,
            );
            assert(cut[a] == out[a]);
            assert(base[a] == mid[a]);
        }
        assert forall|a: int, x: usize|
            0 <= a < chosen.len() && #[trigger] lists(chosen[a], x) implies lists(cut[a], x)
            || cut[a].len() >= m by {
            assert(lists(mid[a], x) || mid[a].len() >= m);
        }
        assert forall|a: int, x: usize| 0 <= a < cut.len() && #[trigger] lists(cut[a], x) implies x
            < cut.len() && (lists(chosen[a], x) || lists(chosen[x as int], a as usize)) by {
            if a != node && !lists(mid[a], x) {
                assert(lists(mid[node], a as usize));
            } else {
                assert(lists(mid[a], x));
            }
        }
        assert forall|a: int, x: usize|
            0 <= a < cut.len() && #[trigger] lists(cut[a], x) && (a < k || !lists(
                chosen[a],
                x,
            )) implies lists(cut[x as int], a as usize) || cut[x as int].len() >= m by {
            if a == node {
                assert(lists(mid[node], x));
                if x != node {
                    assert(lists(mid[node], x));
                }
            } else if lists(mid[a], x) {
                assert(lists(mid[x as int], a as usize) || mid[x as int].len() >= m);
            } else {
                assert(x == node && lists(mid[node], a as usize));
            }
        }
    }
}

/// What linking makes of the edges picked for every node (`chosen`).
///
/// An edge that was picked stays, unless its node has `m` edges. Every edge was
/// picked in one direction or the other. And every edge goes both ways, unless
/// the node that would have it back has `m` edges.
pub proof fn lemma_links_go_both_ways<D: DistanceAlgorithm<ID>, ID>(
    features: Seq<ID>,
    adj: Seq<Seq<u32>>,
    enter: int,
    m: int,
    c_max: int,
    ef: int,
    factor: PruneFactor,
    chosen: Seq<Seq<Entry>>,
    cut: Seq<Seq<Entry>>,
)
    requires
        link_outcome::<D, ID>(features, adj, enter, (m, c_max, ef), factor, chosen, cut),
        graph_on(adj, features.len() as int),
        0 <= enter < features.len() <= usize::MAX,
        adj[enter].no_duplicates(),
        ef >= 0,
    ensures
        chosen.len() == features.len(),
        cut.len() == features.len(),
        forall|a: int, x: usize|
            0 <= a < features.len() && #[trigger] lists(chosen[a], x) ==> lists(cut[a], x)
                || cut[a].len() >= m,
        forall|a: int, x: usize|
            0 <= a < features.len() && #[trigger] lists(cut[a], x) ==> x < features.len() && (lists(
                chosen[a],
                x,
            ) || lists(chosen[x as int], a as usize)),
        forall|a: int, x: usize|
            0 <= a < features.len() && #[trigger] lists(cut[a], x) ==> lists(
                cut[x as int],
                a as usize,
            ) || cut[x as int].len() >= m,
{
    assert forall|a: int| 0 <= a < chosen.len() implies within(
        #[trigger] chosen[a],
        chosen.len() as int,
    ) by {
        let (sorted, cands, c) = lemma_edges_of_node::<D, ID>(
            features,
            adj,
            enter,
            m,
            c_max,
            ef,
            factor,
            a,
            chosen[a],
        );
        assert forall|p: int| 0 <= p < chosen[a].len() implies (#[trigger] chosen[a][p]).0
            < chosen.len() by {
            assert(chosen[a].contains(chosen[a][p]));
            assert(cands.contains(chosen[a][p]));
            let q = choose|q: int| 0 <= q < cands.len() && cands[q] == chosen[a][p];
            assert(sorted.contains(cands[q]));
            let t = choose|t: int| 0 <= t < sorted.len() && sorted[t] == cands[q];
            assert(sorted[t].0 < features.len());
        }
    }
    lemma_returned_lists::<D, ID>(features, factor, m, features.len(), chosen, cut);
}

// ---------------------------------------------------------------------------
// Constructions
// ---------------------------------------------------------------------------

/// Which edges are picked for a node of a graph that is built, in terms of the
/// configuration and of the nearest neighbours `knn` alone: as for a node of
/// any graph.
#[verifier::spinoff_prover]
#[verifier::rlimit(60)]
pub proof fn lemma_built_edges<D: DistanceAlgorithm<ID>, ID: Medoid<D>>(
    features: Seq<ID>,
    cfg: BuildConfig,
    enter: int,
    adj: Seq<Seq<u32>>,
    knn: Seq<Seq<Entry>>,
    chosen: Seq<Seq<Entry>>,
    cut: Seq<Seq<Entry>>,
    steps: Seq<(int, int)>,
    node: int,
) -> (w: (Seq<Entry>, Seq<Entry>, int))
    requires
        build_outcome::<D, ID>(features, cfg, enter, adj, knn, chosen, cut, steps),
        0 <= enter < features.len() <= 0x1_0000_0000,
        0 <= node < features.len(),
        features.len() <= usize::MAX,
    ensures
        ({
            let (sorted, cands, c) = w;
            let list = chosen[node];
            let m = cfg.nsg.m as int;
            let c_max = cfg.nsg.c as int;
            let ef = cfg.nsg.ef as int;
            let factor = cfg.nsg.alpha;
            let from: int = if sorted.len() > 0 && sorted[0].0 == node {
                1
            } else {
                0
            };
            let to: int = if from >= sorted.len() {
                from
            } else if c_max <= from {
                from + 1
            } else if c_max < sorted.len() {
                c_max
            } else {
                sorted.len() as int
            };
            &&& by_distance(sorted)
            &&& by_distance(cands)
            &&& cands == sorted.subrange(from, to)
            &&& forall|p: int, q: int|
                0 <= p < q < sorted.len() ==> (#[trigger] sorted[p]).0 != (
                #[trigger] sorted[q]).0
            &&& forall|p: int|
                0 <= p < sorted.len() ==> {
                    &&& (#[trigger] sorted[p]).0 < features.len()
                    &&& sorted[p].1 == D::distance(
                        features[sorted[p].0 as int],
                        features[node],
                    )
                }
            &&& forall|k: int|
                0 <= k < knn[node].len() ==> lists(sorted, (#[trigger] knn[node][k]).0)
            &&& forall|k: int|
                0 <= k < knn[enter].len() && k < ef ==> lists(
                    sorted,
                    (#[trigger] knn[enter][k]).0,
                )
            &&& sorted.len() >= ef || sorted.len() == features.len()
            &&& ef >= features.len() ==> forall|x: usize|
                x < features.len() ==> #[trigger] lists(sorted, x)
            &&& list.len() == if cands.len() <= m || cands.len() <= 1 {
                cands.len() as int
            } else if m <= 1 {
                1
            } else {
                m
            }
            &&& forall|e: Entry| #[trigger] list.contains(e) ==> cands.contains(e)
            &&& 0 <= c <= list.len()
            &&& by_distance(list.take(c))
            &&& by_distance(list.skip(c))
            &&& forall|i: int, j: int|
                0 <= i < j < c ==> !((#[trigger] list[i]).0 == (#[trigger] list[j]).0
                    || factor.scales_below(
                    D::distance(features[list[i].0 as int], features[list[j].0 as int]),
                    list[j].1,
                ))
            &&& forall|j: int|
                c <= j < list.len() ==> list.contains(#[trigger] list[j]) && exists|i: int|
                    {
                        &&& 0 <= i < c
                        &&& (#[trigger] list[i]).1 <= list[j].1
                        &&& list[i].0 == list[j].0 || factor.scales_below(
                            D::distance(features[list[i].0 as int], features[list[j].0 as int]),
                            list[j].1,
                        )
                    }
            &&& forall|p: int|
                0 <= p < cands.len() && !list.contains(#[trigger] cands[p]) ==> {
                    ||| (c == list.len() && forall|i: int|
                        0 <= i < list.len() ==> (#[trigger] list[i]).1 <= cands[p].1)
                    ||| ((forall|j: int|
                        c <= j < list.len() ==> (#[trigger] list[j]).1 <= cands[p].1)
                        && exists|i: int|
                        {
                            &&& 0 <= i < c
                            &&& (#[trigger] list[i]).1 <= cands[p].1
                            &&& list[i].0 == cands[p].0 || factor.scales_below(
                                D::distance(
                                    features[list[i].0 as int],
                                    features[cands[p].0 as int],
                                ),
                                cands[p].1,
                            )
                        })
                }
        }),
{
    lemma_linked_edges::<D, ID>(features, cfg, enter, knn, chosen, cut, node)
}

/// The same of linking alone.
#[verifier::spinoff_prover]
#[verifier::rlimit(60)]
proof fn lemma_linked_edges<D: DistanceAlgorithm<ID>, ID>(
    features: Seq<ID>,
    cfg: BuildConfig,
    enter: int,
    knn: Seq<Seq<Entry>>,
    chosen: Seq<Seq<Entry>>,
    cut: Seq<Seq<Entry>>,
    node: int,
) -> (w: (Seq<Entry>, Seq<Entry>, int))
    requires
        sound_graph::<D, ID>(features, cfg.nnd.k as int, knn),
        link_outcome::<D, ID>(
            features,
            targets(knn),
            enter,
            (cfg.nsg.m as int, cfg.nsg.c as int, cfg.nsg.ef as int),
            cfg.nsg.alpha,
            chosen,
            cut,
        ),
        0 <= enter < features.len() <= 0x1_0000_0000,
        0 <= node < features.len(),
        features.len() <= usize::MAX,
    ensures
        ({
            let (sorted, cands, c) = w;
            let list = chosen[node];
            let m = cfg.nsg.m as int;
            let c_max = cfg.nsg.c as int;
            let ef = cfg.nsg.ef as int;
            let factor = cfg.nsg.alpha;
            let from: int = if sorted.len() > 0 && sorted[0].0 == node {
                1
            } else {
                0
            };
            let to: int = if from >= sorted.len() {
                from
            } else if c_max <= from {
                from + 1
            } else if c_max < sorted.len() {
                c_max
            } else {
                sorted.len() as int
            };
            &&& by_distance(sorted)
            &&& by_distance(cands)
            &&& cands == sorted.subrange(from, to)
            &&& forall|p: int, q: int|
                0 <= p < q < sorted.len() ==> (#[trigger] sorted[p]).0 != (
                #[trigger] sorted[q]).0
            &&& forall|p: int|
                0 <= p < sorted.len() ==> {
                    &&& (#[trigger] sorted[p]).0 < features.len()
                    &&& sorted[p].1 == D::distance(
                        features[sorted[p].0 as int],
                        features[node],
                    )
                }
            &&& forall|k: int|
                0 <= k < knn[node].len() ==> lists(sorted, (#[trigger] knn[node][k]).0)
            &&& forall|k: int|
                0 <= k < knn[enter].len() && k < ef ==> lists(
                    sorted,
                    (#[trigger] knn[enter][k]).0,
                )
            &&& sorted.len() >= ef || sorted.len() == features.len()
            &&& ef >= features.len() ==> forall|x: usize|
                x < features.len() ==> #[trigger] lists(sorted, x)
            &&& list.len() == if cands.len() <= m || cands.len() <= 1 {
                cands.len() as int
            } else if m <= 1 {
                1
            } else {
                m
            }
            &&& forall|e: Entry| #[trigger] list.contains(e) ==> cands.contains(e)
            &&& 0 <= c <= list.len()
            &&& by_distance(list.take(c))
            &&& by_distance(list.skip(c))
            &&& forall|i: int, j: int|
                0 <= i < j < c ==> !((#[trigger] list[i]).0 == (#[trigger] list[j]).0
                    || factor.scales_below(
                    D::distance(features[list[i].0 as int], features[list[j].0 as int]),
                    list[j].1,
                ))
            &&& forall|j: int|
                c <= j < list.len() ==> list.contains(#[trigger] list[j]) && exists|i: int|
                    {
                        &&& 0 <= i < c
                        &&& (#[trigger] list[i]).1 <= list[j].1
                        &&& list[i].0 == list[j].0 || factor.scales_below(
                            D::distance(features[list[i].0 as int], features[list[j].0 as int]),
                            list[j].1,
                        )
                    }
            &&& forall|p: int|
                0 <= p < cands.len() && !list.contains(#[trigger] cands[p]) ==> {
                    ||| (c == list.len() && forall|i: int|
                        0 <= i < list.len() ==> (#[trigger] list[i]).1 <= cands[p].1)
                    ||| ((forall|j: int|
                        c <= j < list.len() ==> (#[trigger] list[j]).1 <= cands[p].1)
                        && exists|i: int|
                        {
                            &&& 0 <= i < c
                            &&& (#[trigger] list[i]).1 <= cands[p].1
                            &&& list[i].0 == cands[p].0 || factor.scales_below(
                                D::distance(
                                    features[list[i].0 as int],
                                    features[cands[p].0 as int],
                                ),
                                cands[p].1,
                            )
                        })
                }
        }),
{
    let near = targets(knn);
    lemma_targets_simple::<D, ID>(features, cfg.nnd.k as int, knn);
    assert(near[enter].no_duplicates());
    let w = lemma_edges_of_node::<D, ID>(
        features,
        near,
        enter,
        cfg.nsg.m as int,
        cfg.nsg.c as int,
        cfg.nsg.ef as int,
        cfg.nsg.alpha,
        node,
        chosen[node],
    );
    let sorted = w.0;
    assert forall|k: int| 0 <= k < knn[node].len() implies lists(
        sorted,
        (#[trigger] knn[node][k]).0,
    ) by {
        lemma_target_of::<D, ID>(features, cfg.nnd.k as int, knn, node, k);
        assert(lists(sorted, near[node][k] as usize));
    }
    assert forall|k: int| 0 <= k < knn[enter].len() && k < cfg.nsg.ef implies lists(
        sorted,
        (#[trigger] knn[enter][k]).0,
    ) by {
        lemma_target_of::<D, ID>(features, cfg.nnd.k as int, knn, enter, k);
        assert(lists(sorted, near[enter][k] as usize));
    }
    let list = chosen[node];
    let c = w.2;
    let factor = cfg.nsg.alpha;
    assert forall|j: int|
        c <= j < list.len() implies list.contains(#[trigger] list[j]) && exists|i: int|
            {
            &&& 0 <= i < c
            &&& (#[trigger] list[i]).1 <= list[j].1
            &&& list[i].0 == list[j].0 || factor.scales_below(
                D::distance(features[list[i].0 as int], features[list[j].0 as int]),
                list[j].1,
            )
        } by {
        let e = list[j];
        assert(list[j] == e);
    }
    w
}

/// The target of an edge fits its type.
proof fn lemma_target_of<D: DistanceAlgorithm<ID>, ID>(
    features: Seq<ID>,
    k_max: int,
    knn: Seq<Seq<Entry>>,
    x: int,
    k: int,
)
    requires
        sound_graph::<D, ID>(features, k_max, knn),
        features.len() <= 0x1_0000_0000,
        0 <= x < knn.len(),
        0 <= k < knn[x].len(),
    ensures
        targets(knn)[x][k] as usize == knn[x][k].0,
        targets(knn)[x].len() == knn[x].len(),
        knn[x][k].0 < features.len(),
{
    assert(knn[x][k].0 < features.len()) by {
        assert(sound_entries::<D, ID>(features, x, knn[x]));
    }
}

/// What becomes of the edges picked for the nodes of a graph that is built.
///
/// The edges `cut` of a node are `m` at most (one is always allowed). One that was
/// picked stays unless there are `m`; each goes both ways, unless the node that
/// would have it back has `m`; and each was picked in one direction or the other.
/// The edges of the graph are these, in their order, and behind them those that
/// the steps of connecting added.
pub proof fn lemma_built_links<D: DistanceAlgorithm<ID>, ID: Medoid<D>>(
    features: Seq<ID>,
    cfg: BuildConfig,
    enter: int,
    adj: Seq<Seq<u32>>,
    knn: Seq<Seq<Entry>>,
    chosen: Seq<Seq<Entry>>,
    cut: Seq<Seq<Entry>>,
    steps: Seq<(int, int)>,
)
    requires
        build_outcome::<D, ID>(features, cfg, enter, adj, knn, chosen, cut, steps),
        0 <= enter < features.len() <= 0x1_0000_0000,
        features.len() <= usize::MAX,
    ensures
        adj.len() == features.len(),
        cut.len() == features.len(),
        forall|a: int|
            0 <= a < features.len() ==> (#[trigger] cut[a]).len() <= cfg.nsg.m || cut[a].len() <= 1,
        forall|a: int, x: usize|
            0 <= a < features.len() && #[trigger] lists(chosen[a], x) ==> lists(cut[a], x)
                || cut[a].len() >= cfg.nsg.m,
        forall|a: int, x: usize|
            0 <= a < features.len() && #[trigger] lists(cut[a], x) ==> x < features.len() && (lists(
                chosen[a],
                x,
            ) || lists(chosen[x as int], a as usize)),
        forall|a: int, x: usize|
            0 <= a < features.len() && #[trigger] lists(cut[a], x) ==> lists(
                cut[x as int],
                a as usize,
            ) || cut[x as int].len() >= cfg.nsg.m,
        forall|a: int, k: int|
            0 <= a < features.len() && 0 <= k < cut[a].len() ==> k < adj[a].len()
                && #[trigger] adj[a][k] == (#[trigger] cut[a][k]).0,
        forall|a: int, k: int|
            0 <= a < features.len() && cut[a].len() <= k < adj[a].len() ==> exists|i: int|
                0 <= i < steps.len() && (#[trigger] steps[i]) == (a, #[trigger] adj[a][k] as int),
{
    let near = targets(knn);
    let n = features.len() as int;
    lemma_targets_simple::<D, ID>(features, cfg.nnd.k as int, knn);
    assert(near[enter].no_duplicates());
    lemma_links_go_both_ways::<D, ID>(
        features,
        near,
        enter,
        cfg.nsg.m as int,
        cfg.nsg.c as int,
        cfg.nsg.ef as int,
        cfg.nsg.alpha,
        chosen,
        cut,
    );
    assert forall|a: int, k: int| 0 <= a < n && 0 <= k < cut[a].len() implies k < adj[a].len()
        && #[trigger] adj[a][k] == (#[trigger] cut[a][k]).0 by {
        lemma_extended_edges(targets(cut), steps, a, n);
        assert(targets(cut)[a][k] == cut[a][k].0 as u32);
        assert(lists(cut[a], cut[a][k].0));
        assert(cut[a][k].0 < n);
    }
    assert forall|a: int, k: int| 0 <= a < n && cut[a].len() <= k < adj[a].len() implies exists|
        i: int,
    |
        0 <= i < steps.len() && (#[trigger] steps[i]) == (a, #[trigger] adj[a][k] as int) by {
        lemma_extended_edges(targets(cut), steps, a, n);
        assert(adj[a] == extended(targets(cut), steps)[a]);
        assert(targets(cut)[a].len() == cut[a].len());
        assert forall|i: int| 0 <= i < steps.len() implies 0 <= (#[trigger] steps[i]).1 < n by {
            assert(links_next::<D, ID>(
                features,
                targets(cut),
                enter,
                cfg.nsg.ef as int,
                steps,
                i,
            ));
            lemma_steps_below(steps, i, n);
            lemma_extended_edges(targets(cut), steps.take(i), a, n);
        }
        lemma_extended_new(targets(cut), steps, a, n, k);
    }
}

/// The first steps start from nodes as all of them do.
proof fn lemma_steps_below(steps: Seq<(int, int)>, i: int, n: int)
    requires
        forall|k: int| 0 <= k < steps.len() ==> 0 <= (#[trigger] steps[k]).0 < n,
        0 <= i <= steps.len(),
    ensures
        forall|k: int| 0 <= k < i ==> 0 <= (#[trigger] steps.take(i)[k]).0 < n,
{
    assert forall|k: int| 0 <= k < i implies 0 <= (#[trigger] steps.take(i)[k]).0 < n by {
        assert(steps.take(i)[k] == steps[k]);
    }
}

/// Appending edges keeps those that are there.
proof fn lemma_extended_edges(adj: Seq<Seq<u32>>, steps: Seq<(int, int)>, a: int, n: int)
    requires
        adj.len() == n,
        0 <= a < n,
        forall|i: int| 0 <= i < steps.len() ==> 0 <= (#[trigger] steps[i]).0 < n,
    ensures
        extended(adj, steps).len() == n,
        adj[a].len() <= extended(adj, steps)[a].len(),
        forall|k: int|
            0 <= k < adj[a].len() ==> #[trigger] extended(adj, steps)[a][k] == adj[a][k],
    decreases steps.len(),
{
    if steps.len() > 0 {
        let shorter = steps.drop_last();
        assert forall|i: int| 0 <= i < shorter.len() implies 0 <= (#[trigger] shorter[i]).0
            < n by {
            assert(shorter[i] == steps[i]);
        }
        assert(0 <= steps[steps.len() - 1].0 < n);
        lemma_extended_edges(adj, steps.drop_last(), a, n);
        let before = extended(adj, steps.drop_last());
        let after = extended(adj, steps);
        let (r, u) = steps.last();
        assert(after == before.update(r, before[r].push(u as u32)));
        assert forall|k: int| 0 <= k < adj[a].len() implies #[trigger] after[a][k] == adj[a][k] by {
            assert(before[a][k] == adj[a][k]);
        }
    }
}

/// Every edge that is new was appended by a step.
proof fn lemma_extended_new(
    adj: Seq<Seq<u32>>,
    steps: Seq<(int, int)>,
    a: int,
    n: int,
    k: int,
)
    requires
        adj.len() == n <= 0x1_0000_0000,
        0 <= a < n,
        adj[a].len() <= k < extended(adj, steps)[a].len(),
        forall|i: int|
            0 <= i < steps.len() ==> 0 <= (#[trigger] steps[i]).1 < n && 0 <= steps[i].0 < n,
    ensures
        exists|i: int|
            0 <= i < steps.len() && (#[trigger] steps[i]) == (
                a,
                extended(adj, steps)[a][k] as int,
            ),
    decreases steps.len(),
{
    if steps.len() > 0 {
        let shorter = steps.drop_last();
        assert forall|i: int| 0 <= i < shorter.len() implies 0 <= (#[trigger] shorter[i]).1 < n
            && 0 <= shorter[i].0 < n by {
            assert(shorter[i] == steps[i]);
        }
        lemma_extended_edges(adj, shorter, a, n);
        let before = extended(adj, shorter);
        let after = extended(adj, steps);
        let (r, u) = steps.last();
        assert(after == before.update(r, before[r].push(u as u32)));
        assert(0 <= steps[steps.len() - 1].1 < n);
        if k < before[a].len() {
            assert(after[a][k] == before[a][k]);
            lemma_extended_new(adj, shorter, a, n, k);
            let i = choose|i: int|
                0 <= i < shorter.len() && (#[trigger] shorter[i]) == (a, before[a][k] as int);
            assert(steps[i] == (a, after[a][k] as int));
        } else {
            assert(r == a);
            assert(after[a][k] == u as u32);
            assert(steps[steps.len() - 1] == (a, after[a][k] as int));
        }
    }
}

/// Every edge of a graph that is built carries the distance between its ends, and
/// those that were picked or answered lead to different nodes.
pub proof fn lemma_built_distances<D: DistanceAlgorithm<ID>, ID: Medoid<D>>(
    features: Seq<ID>,
    cfg: BuildConfig,
    enter: int,
    adj: Seq<Seq<u32>>,
    knn: Seq<Seq<Entry>>,
    chosen: Seq<Seq<Entry>>,
    cut: Seq<Seq<Entry>>,
    steps: Seq<(int, int)>,
    graph: Seq<NsgNode>,
    x: int,
)
    requires
        build_outcome::<D, ID>(features, cfg, enter, adj, knn, chosen, cut, steps),
        carries::<D, ID>(features, cut, graph),
        adj == adjacency(graph),
        0 <= enter < features.len() <= 0x1_0000_0000,
        features.len() <= usize::MAX,
        0 <= x < features.len(),
    ensures
        graph.len() == features.len(),
        graph[x].neighbor_distances@.len() == graph[x].neighbors@.len(),
        forall|i: int|
            0 <= i < graph[x].neighbors@.len() ==> {
                let end = #[trigger] graph[x].neighbors@[i];
                let d = graph[x].neighbor_distances@[i];
                d == D::distance(features[x], features[end as int]) || d == D::distance(
                    features[end as int],
                    features[x],
                )
            },
        forall|i: int, j: int|
            0 <= i < j < cut[x].len() ==> (#[trigger] graph[x].neighbors@[i]) != (
            #[trigger] graph[x].neighbors@[j]),
{
    lemma_built_links::<D, ID>(features, cfg, enter, adj, knn, chosen, cut, steps);
    assert(carried::<D, ID>(features, x, cut[x], graph[x]));
    assert(sound_list::<D, ID>(features, cfg.nsg.m as int, true, x, cut[x]));
    assert(adj[x] == graph[x].neighbors@);
    assert forall|i: int| 0 <= i < graph[x].neighbors@.len() implies {
        let end = #[trigger] graph[x].neighbors@[i];
        let d = graph[x].neighbor_distances@[i];
        d == D::distance(features[x], features[end as int]) || d == D::distance(
            features[end as int],
            features[x],
        )
    } by {
        let k = cut[x].len() as int;
        if i < k {
            assert(adj[x][i] == cut[x][i].0);
            assert(graph[x].neighbor_distances@.take(k)[i] == cut[x][i].1);
        }
    }
    assert forall|i: int, j: int| 0 <= i < j < cut[x].len() implies (
    #[trigger] graph[x].neighbors@[i]) != (#[trigger] graph[x].neighbors@[j]) by {
        assert(adj[x][i] == cut[x][i].0);
        assert(adj[x][j] == cut[x][j].0);
    }
}

/// From the entry point of a graph that is built there is a way to every node:
/// from node to node along edges.
pub proof fn lemma_built_ways<D: DistanceAlgorithm<ID>, ID: Medoid<D>>(
    features: Seq<ID>,
    cfg: BuildConfig,
    enter: int,
    adj: Seq<Seq<u32>>,
    knn: Seq<Seq<Entry>>,
    chosen: Seq<Seq<Entry>>,
    cut: Seq<Seq<Entry>>,
    steps: Seq<(int, int)>,
    v: int,
) -> (way: Seq<int>)
    requires
        build_outcome::<D, ID>(features, cfg, enter, adj, knn, chosen, cut, steps),
        0 <= enter < features.len() <= 0x1_0000_0000,
        features.len() <= usize::MAX,
        0 <= v < features.len(),
    ensures
        way.len() > 0,
        way[0] == enter,
        way.last() == v,
        forall|i: int, j: int|
            0 <= i && j == i + 1 && j < way.len() ==> {
                &&& 0 <= (#[trigger] way[i]) < features.len()
                &&& 0 <= (#[trigger] way[j]) < features.len()
                &&& adj[way[i]].contains(way[j] as u32)
            },
{
    lemma_built_links::<D, ID>(features, cfg, enter, adj, knn, chosen, cut, steps);
    assert(reaches(extended(targets(cut), steps), enter, v));
    let way = choose|way: Seq<int>|
        #[trigger] is_path(adj, way) && way[0] == enter && way.last() == v;
    assert forall|i: int, j: int| 0 <= i && j == i + 1 && j < way.len() implies {
        &&& 0 <= (#[trigger] way[i]) < features.len()
        &&& 0 <= (#[trigger] way[j]) < features.len()
        &&& adj[way[i]].contains(way[j] as u32)
    } by {
        assert(hop(adj, way, i));
        let k = choose|k: int| 0 <= k < adj[way[i]].len() && #[trigger] adj[way[i]][k] == way[j];
        assert(adj[way[i]][k] == way[j] as u32);
    }
    way
}

/// The entry point of a graph that is built is central: none of the nearest
/// neighbours that it is built from is nearer to the centre, and with room for
/// every node in the search no node is.
pub proof fn lemma_built_entry<D: DistanceAlgorithm<ID>, ID: Medoid<D>>(
    features: Seq<ID>,
    cfg: BuildConfig,
    enter: int,
    adj: Seq<Seq<u32>>,
    knn: Seq<Seq<Entry>>,
    chosen: Seq<Seq<Entry>>,
    cut: Seq<Seq<Entry>>,
    steps: Seq<(int, int)>,
)
    requires
        build_outcome::<D, ID>(features, cfg, enter, adj, knn, chosen, cut, steps),
        0 <= enter < features.len() <= 0x1_0000_0000,
        features.len() <= usize::MAX,
        cfg.nsg.ef > 0,
    ensures
        forall|k: int|
            0 <= k < knn[enter].len() ==> D::distance(
                features[enter],
                <ID as Medoid<D>>::center(features),
            ) <= D::distance(
                features[(#[trigger] knn[enter][k]).0 as int],
                <ID as Medoid<D>>::center(features),
            ),
        cfg.nsg.ef >= features.len() ==> forall|x: usize|
            x < features.len() ==> D::distance(
                features[enter],
                <ID as Medoid<D>>::center(features),
            ) <= #[trigger] D::distance(
                features[x as int],
                <ID as Medoid<D>>::center(features),
            ),
{
    let near = targets(knn);
    let center = <ID as Medoid<D>>::center(features);
    let ef = cfg.nsg.ef as int;
    lemma_targets_simple::<D, ID>(features, cfg.nnd.k as int, knn);
    let (start, pool, seen) = choose|start: int, pool: Seq<Entry>, seen: Seq<Entry>|
        {
            &&& 0 <= start < features.len()
            &&& #[trigger] search_outcome::<D, ID>(features, near, start, center, ef, pool, seen)
            &&& enter == if pool.len() > 0 {
                pool[0].0 as int
            } else {
                start
            }
        };
    assert(near[start].no_duplicates());
    lemma_search_closed::<D, ID>(features, near, start, center, ef, pool, seen);
    assert(pool[0].1 == D::distance(features[enter], center));
    assert(pool[0].1 <= pool.last().1) by {
        if pool.len() > 1 {
            assert(pool[0].1 <= pool[pool.len() - 1].1);
        }
    }
    assert forall|k: int| 0 <= k < knn[enter].len() implies D::distance(
        features[enter],
        center,
    ) <= D::distance(features[(#[trigger] knn[enter][k]).0 as int], center) by {
        lemma_target_of::<D, ID>(features, cfg.nnd.k as int, knn, enter, k);
        let y = near[pool[0].0 as int][k];
        if exists|j: int| 0 <= j < pool.len() && (#[trigger] pool[j]).0 == y {
            let j = choose|j: int| 0 <= j < pool.len() && (#[trigger] pool[j]).0 == y;
            if j > 0 {
                assert(pool[0].1 <= pool[j].1);
            }
        }
    }
    if ef >= features.len() {
        assert forall|x: usize| x < features.len() implies D::distance(features[enter], center)
            <= #[trigger] D::distance(features[x as int], center) by {
            let j = choose|j: int|
                0 <= j < pool.len() && (#[trigger] pool[j]) == (
                    x,
                    D::distance(features[x as int], center),
                );
            if j > 0 {
                assert(pool[0].1 <= pool[j].1);
            }
        }
    }
}

/// How a node that is not reached is linked: the step `i` of connecting links the
/// first such node, from a reached node that is no farther from it than the
/// ends of the edges of the entry point that the search starts with. With room
/// for every node in the search no reached node is nearer to it.
pub proof fn lemma_built_step<D: DistanceAlgorithm<ID>, ID: Medoid<D>>(
    features: Seq<ID>,
    cfg: BuildConfig,
    enter: int,
    adj: Seq<Seq<u32>>,
    knn: Seq<Seq<Entry>>,
    chosen: Seq<Seq<Entry>>,
    cut: Seq<Seq<Entry>>,
    steps: Seq<(int, int)>,
    i: int,
)
    requires
        build_outcome::<D, ID>(features, cfg, enter, adj, knn, chosen, cut, steps),
        0 <= enter < features.len() <= 0x1_0000_0000,
        features.len() <= usize::MAX,
        0 <= i < steps.len(),
    ensures
        ({
            let (r, u) = steps[i];
            let before = extended(targets(cut), steps.take(i));
            &&& 0 <= r < features.len()
            &&& 0 <= u < features.len()
            &&& reaches(before, enter, r)
            &&& !reaches(before, enter, u)
            &&& forall|v: int| 0 <= v < u ==> #[trigger] reaches(before, enter, v)
            &&& forall|k: int|
                0 <= k < cut[enter].len() && k < cfg.nsg.ef ==> D::distance(
                    features[r],
                    features[u],
                ) <= D::distance(
                    features[(#[trigger] cut[enter][k]).0 as int],
                    features[u],
                )
            &&& cfg.nsg.ef >= features.len() && before[enter].no_duplicates() ==> forall|x: int|
                0 <= x < features.len() && #[trigger] reaches(before, enter, x) ==> D::distance(
                    features[r],
                    features[u],
                ) <= D::distance(features[x], features[u])
        }),
{
    let n = features.len() as int;
    let ef = cfg.nsg.ef as int;
    let base = targets(cut);
    let (r, u) = steps[i];
    let before = extended(base, steps.take(i));
    lemma_built_links::<D, ID>(features, cfg, enter, adj, knn, chosen, cut, steps);
    lemma_steps_below(steps, i, n);
    lemma_extended_edges(base, steps.take(i), enter, n);
    assert(links_next::<D, ID>(features, base, enter, ef, steps, i));
    let flags = reached_flags(before, enter);
    assert(first_unset(flags, u));
    assert(!flags[u]);
    assert forall|v: int| 0 <= v < u implies #[trigger] reaches(before, enter, v) by {
        assert(flags[v]);
    }
    let (pool, seen, sorted) = choose|pool: Seq<Entry>, seen: Seq<Entry>, sorted: Seq<Entry>|
        {
            &&& #[trigger] search_outcome::<D, ID>(
                features,
                before,
                enter,
                features[u],
                ef,
                pool,
                seen,
            )
            &&& #[trigger] same_items(seen, sorted)
            &&& by_distance(sorted)
            &&& flagged_choice(flags, sorted, r)
        };
    lemma_same_entries(seen, sorted);
    assert forall|x: usize| x < n && flags[x as int] && #[trigger] lists(seen, x) implies D::distance(
        features[r],
        features[u],
    ) <= D::distance(features[x as int], features[u]) by {
        assert(lists(sorted, x));
        let q = choose|q: int| 0 <= q < sorted.len() && (#[trigger] sorted[q]).0 == x;
        assert(flags[sorted[q].0 as int]);
        let p = choose|p: int|
            {
                &&& 0 <= p < sorted.len()
                &&& (#[trigger] sorted[p]).0 == r
                &&& forall|j: int| 0 <= j < p ==> !flags[(#[trigger] sorted[j]).0 as int]
            };
        assert(p <= q);
        assert(sorted[p].1 <= sorted[q].1);
        lemma_sorted_measured::<D, ID>(features, features[u], seen, sorted, p);
        lemma_sorted_measured::<D, ID>(features, features[u], seen, sorted, q);
    }
    lemma_reaches_from(before, enter);
    assert forall|k: int| 0 <= k < cut[enter].len() && k < ef implies D::distance(
        features[r],
        features[u],
    ) <= D::distance(features[(#[trigger] cut[enter][k]).0 as int], features[u]) by {
        let y = cut[enter][k].0;
        assert(lists(cut[enter], y));
        assert(before[enter][k] == base[enter][k]);
        assert(base[enter][k] == y as u32);
        assert(seen[k].0 == before[enter][k]);
        assert(lists(seen, y));
        assert(edge(before, enter, y as int));
        lemma_reaches_along(before, enter, y as int);
        assert(flags[y as int]);
    }
    if ef >= n && before[enter].no_duplicates() {
        lemma_full_pool_is_exact::<D, ID>(features, before, enter, features[u], ef, pool, seen);
        assert forall|x: int| 0 <= x < n && #[trigger] reaches(before, enter, x) implies D::distance(
            features[r],
            features[u],
        ) <= D::distance(features[x], features[u]) by {
            let v = x as usize;
            let e = (v, D::distance(features[v as int], features[u]));
            assert(pool.contains(e));
            let a = choose|a: int| 0 <= a < pool.len() && pool[a] == e;
            assert(seen.contains(pool[a]));
            let b = choose|b: int| 0 <= b < seen.len() && seen[b] == e;
            assert(seen[b].0 == v);
            assert(lists(seen, v));
            assert(flags[x]);
        }
    }
}

/// A reordered entry carries its distance.
proof fn lemma_sorted_measured<D: DistanceAlgorithm<ID>, ID>(
    features: Seq<ID>,
    query: ID,
    seen: Seq<Entry>,
    sorted: Seq<Entry>,
    p: int,
)
    requires
        measured::<D, ID>(seen, features, query),
        same_items(seen, sorted),
        0 <= p < sorted.len(),
    ensures
        sorted[p].1 == D::distance(features[sorted[p].0 as int], query),
{
    lemma_same_entries(seen, sorted);
    assert(sorted.contains(sorted[p]));
    let q = choose|q: int| 0 <= q < seen.len() && seen[q] == sorted[p];
    assert(seen[q].1 == D::distance(features[seen[q].0 as int], query));
}

/// A node is reached from itself.
proof fn lemma_reaches_from(adj: Seq<Seq<u32>>, a: int)
    requires
        0 <= a < adj.len(),
    ensures
        reaches(adj, a, a),
{
    assert(is_path(adj, seq![a]));
}

/// The end of an edge is reached from its start.
proof fn lemma_reaches_along(adj: Seq<Seq<u32>>, a: int, b: int)
    requires
        0 <= a < adj.len(),
        0 <= b < adj.len(),
        edge(adj, a, b),
    ensures
        reaches(adj, a, b),
{
    let way = seq![a, b];
    assert(hop(adj, way, 0));
    assert(is_path(adj, way));
}

} // verus!
