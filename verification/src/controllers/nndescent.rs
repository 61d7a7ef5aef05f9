//! NN-descent: a nearest-neighbour graph out of the principle that the
//! neighbours of neighbours are likely to be neighbours.

pub use crate::controllers::neighborhood::{NndParams, Nhood};

use crate::controllers::join::{join_hoods, joined, lemma_join_no_worse, lemma_joined_sound};
use crate::controllers::link::edge_lists;
use crate::controllers::metric_tree::MetricTreeInit;
use crate::controllers::neighborhood::{
    between, hoods, lemma_shorter_sound, no_worse, sound_entries, sound_hood, sound_hoods, Hood,
};
use crate::controllers::renew::{
    all_windowed, calls, cut, lemma_renewed_sound, picks_for, renew_hoods, renewal, renewed,
    settled_pool,
};
use crate::controllers::search::{greater, lesser};
use crate::controllers::vantage::{forest_outcome, scored};
use crate::datalayer::algorithms::{all_admitted, DistanceAlgorithm};
use crate::order::{
    ascending, below, by_distance, distinct, holds_point, lemma_insert_distinct,
    lemma_insert_sorted, lemma_one_missing, lemma_same_entries, lists, lists_of, lists_point,
    points, rank, rank_of, same_items, sort_by_distance, unmarked, within, Entry, Marked,
};
use crate::random::{random_index, seeded_state, Prng};
use rand::rngs::StdRng;
use vstd::prelude::*;

verus! {

// ---------------------------------------------------------------------------
// What a start comes to
// ---------------------------------------------------------------------------

/// Every entry is marked.
pub open spec fn all_marked(pool: Seq<Marked>) -> bool {
    forall|i: int| 0 <= i < pool.len() ==> (#[trigger] pool[i]).2
}

/// A neighbourhood in which nothing was compared yet.
pub open spec fn untouched(h: Hood) -> bool {
    &&& all_marked(h.pool)
    &&& h.nn_old.len() == 0
    &&& h.rnn_new.len() == 0
    &&& h.rnn_old.len() == 0
    &&& h.m == 0
}

/// The neighbourhood of `x` at a random start: `s` other nodes, in the pool
/// nearest first.
pub open spec fn random_hood<D: DistanceAlgorithm<ID>, ID>(
    features: Seq<ID>,
    s: int,
    x: int,
    h: Hood,
) -> bool {
    &&& h.nn_new.len() == s
    &&& h.nn_new.no_duplicates()
    &&& below(h.nn_new, features.len() as int)
    &&& !h.nn_new.contains(x as usize)
    &&& same_items(scored::<D, ID>(features, x as usize, h.nn_new), unmarked(h.pool))
    &&& by_distance(unmarked(h.pool))
    &&& untouched(h)
}

/// A random start.
pub open spec fn random_start<D: DistanceAlgorithm<ID>, ID>(
    features: Seq<ID>,
    s: int,
    hs: Seq<Hood>,
) -> bool {
    &&& hs.len() == features.len()
    &&& forall|x: int|
        0 <= x < hs.len() ==> random_hood::<D, ID>(features, s, x, #[trigger] hs[x])
}

/// `kept` with the nodes of `extra` put in by their distance from `x`.
pub open spec fn topped<D: DistanceAlgorithm<ID>, ID>(
    features: Seq<ID>,
    x: int,
    kept: Seq<Entry>,
    extra: Seq<usize>,
) -> Seq<Entry>
    decreases extra.len(),
{
    if extra.len() == 0 {
        kept
    } else {
        let before = topped::<D, ID>(features, x, kept, extra.drop_last());
        let d = D::distance(features[x], features[extra.last() as int]);
        before.insert(rank(before, d), (extra.last(), d))
    }
}

/// Nodes that can top up a list around `x`: each once, `x` itself not, and none
/// that the list holds.
pub open spec fn fresh_nodes(kept: Seq<Entry>, x: int, extra: Seq<usize>, n: int) -> bool {
    &&& extra.no_duplicates()
    &&& below(extra, n)
    &&& forall|i: int|
        0 <= i < extra.len() ==> (#[trigger] extra[i]) != x && !lists(kept, extra[i])
}

/// The neighbourhood of `x` at a start from candidates: the nearest `l` of
/// these, with random nodes where they are fewer than `s`. The nearest `s` are
/// compared first.
pub open spec fn tree_hood<D: DistanceAlgorithm<ID>, ID>(
    features: Seq<ID>,
    params: NndParams,
    x: int,
    candidates: Seq<usize>,
    h: Hood,
) -> bool {
    let want = lesser(params.s as int, features.len() - 1);
    exists|sorted: Seq<Entry>, extra: Seq<usize>|
        {
            &&& #[trigger] same_items(scored::<D, ID>(features, x as usize, candidates), sorted)
            &&& by_distance(sorted)
            &&& #[trigger] fresh_nodes(
                cut(sorted, params.l as int),
                x,
                extra,
                features.len() as int,
            )
            &&& extra.len() == greater(want - cut(sorted, params.l as int).len(), 0)
            &&& unmarked(h.pool) == topped::<D, ID>(
                features,
                x,
                cut(sorted, params.l as int),
                extra,
            )
            &&& h.nn_new == cut(points(unmarked(h.pool)), params.s as int)
            &&& untouched(h)
        }
}

/// A start from the candidates of a forest of vantage-point trees.
pub open spec fn tree_start<D: DistanceAlgorithm<ID>, ID>(
    features: Seq<ID>,
    params: NndParams,
    n_trees: int,
    leaf_size: int,
    hs: Seq<Hood>,
) -> bool {
    &&& hs.len() == features.len()
    &&& features.len() > 0 ==> exists|trees: Seq<Seq<Seq<usize>>>, candidates: Seq<Seq<usize>>|
        {
            &&& #[trigger] forest_outcome::<D, ID>(
                features,
                n_trees,
                leaf_size,
                trees,
                candidates,
            )
            &&& forall|x: int|
                0 <= x < hs.len() ==> tree_hood::<D, ID>(
                    features,
                    params,
                    x,
                    candidates[x],
                    #[trigger] hs[x],
                )
        }
}

// ---------------------------------------------------------------------------
// What a descent comes to
// ---------------------------------------------------------------------------

/// One round: a join, then a renewal.
pub open spec fn round<D: DistanceAlgorithm<ID>, ID>(
    features: Seq<ID>,
    params: NndParams,
    before: Seq<Hood>,
    after: Seq<Hood>,
) -> bool {
    renewal(joined::<D, ID>(features, params.l as int, before), params, after)
}

/// `trace` holds the neighbourhoods at the start and after each of `iter`
/// rounds.
pub open spec fn descent<D: DistanceAlgorithm<ID>, ID>(
    features: Seq<ID>,
    params: NndParams,
    iter: int,
    trace: Seq<Seq<Hood>>,
) -> bool {
    &&& trace.len() == iter + 1
    &&& forall|i: int, j: int|
        0 <= i < iter && j == i + 1 ==> round::<D, ID>(
            features,
            params,
            #[trigger] trace[i],
            #[trigger] trace[j],
        )
}

/// The nearest `k` of every pool.
pub open spec fn nearest(hs: Seq<Hood>, k: int) -> Seq<Seq<Entry>> {
    Seq::new(hs.len(), |i: int| cut(unmarked(hs[i].pool), k))
}

/// Every list holds up to `k` other nodes, nearest first, each once and with its
/// distance.
pub open spec fn sound_graph<D: DistanceAlgorithm<ID>, ID>(
    features: Seq<ID>,
    k: int,
    g: Seq<Seq<Entry>>,
) -> bool {
    &&& g.len() == features.len()
    &&& forall|x: int|
        0 <= x < g.len() ==> (#[trigger] g[x]).len() <= k && sound_entries::<D, ID>(
            features,
            x,
            g[x],
        )
}

// ---------------------------------------------------------------------------
// Starting
// ---------------------------------------------------------------------------

/// Marks every entry.
fn mark_all(list: &Vec<Entry>) -> (pool: Vec<Marked>)
    ensures
        unmarked(pool@) == list@,
        all_marked(pool@),
{
    let mut pool: Vec<Marked> = Vec::with_capacity(list.len());
    let mut i: usize = 0;
    while i < list.len()
        invariant
            i <= list@.len(),
            all_marked(pool@),
            unmarked(pool@) =~= list@.take(i as int),
        decreases list@.len() - i,
    {
        let ghost before = unmarked(pool@);
        pool.push((list[i].0, list[i].1, true));
        assert(unmarked(pool@) =~= before.push(list@[i as int]));
        i = i + 1;
    }
    assert(unmarked(pool@) =~= list@);
    pool
}

/// `s` random nodes below `n` other than `x`. After `u64::MAX` draws, what is
/// still missing is taken in order.
fn random_others(n: usize, x: usize, s: usize, rng: &mut StdRng) -> (list: Vec<usize>)
    requires
        x < n,
        s < n,
    ensures
        list@.len() == s,
        list@.no_duplicates(),
        below(list@, n as int),
        !list@.contains(x),
{
    let mut list: Vec<usize> = Vec::new();
    let mut budget: u64 = u64::MAX;
    while list.len() < s && budget > 0
        invariant
            x < n,
            s < n,
            list@.len() <= s,
            list@.no_duplicates(),
            below(list@, n as int),
            !list@.contains(x),
        decreases budget,
    {
        budget = budget - 1;
        let y: usize = random_index(rng, n);
        if y != x && !holds_point(&list, y) {
            list.push(y);
        }
    }
    let mut next: usize = 0;
    while list.len() < s && next < n
        invariant
            x < n,
            s < n,
            next <= n,
            list@.len() <= s,
            list@.no_duplicates(),
            below(list@, n as int),
            !list@.contains(x),
            forall|y: usize| y < next ==> y == x || #[trigger] list@.contains(y),
        decreases n - next,
    {
        let ghost before = list@;
        let y: usize = next;
        if y != x && !holds_point(&list, y) {
            list.push(y);
            proof {
                assert(list@[before.len() as int] == y);
                assert forall|z: usize| z < next + 1 implies z == x || #[trigger] list@.contains(
                    z,
                ) by {
                    if z != x && z < next {
                        assert(before.contains(z));
                        let k = choose|k: int| 0 <= k < before.len() && before[k] == z;
                        assert(list@[k] == z);
                    }
                }
            }
        }
        next = next + 1;
    }
    proof {
        if list@.len() < s {
            let all = list@.push(x);
            lemma_one_missing(all, n as nat);
            let z = choose|z: usize| z < n && !all.contains(z);
            assert(all[list@.len() as int] == x);
            assert(list@.contains(z));
            let k = choose|k: int| 0 <= k < list@.len() && list@[k] == z;
            assert(all[k] == z);
        }
    }
    list
}

/// The nodes of `list`, each with its distance from `x`.
fn score_all<D: DistanceAlgorithm<ID>, ID>(
    features: &[ID],
    distance: &D,
    x: usize,
    list: &Vec<usize>,
) -> (out: Vec<Entry>)
    requires
        all_admitted::<D, ID>(features@),
        x < features@.len(),
        below(list@, features@.len() as int),
    ensures
        out@ == scored::<D, ID>(features@, x, list@),
{
    let mut out: Vec<Entry> = Vec::with_capacity(list.len());
    let mut i: usize = 0;
    while i < list.len()
        invariant
            i <= list@.len(),
            all_admitted::<D, ID>(features@),
            x < features@.len(),
            below(list@, features@.len() as int),
            out@ =~= scored::<D, ID>(features@, x, list@).take(i as int),
        decreases list@.len() - i,
    {
        let y: usize = list[i];
        let d: u32 = distance.calculate_distance(&features[x], &features[y]);
        out.push((y, d));
        i = i + 1;
    }
    assert(out@ =~= scored::<D, ID>(features@, x, list@));
    out
}

/// Scored nodes in order of distance are sound.
proof fn lemma_scored_sound<D: DistanceAlgorithm<ID>, ID>(
    features: Seq<ID>,
    x: int,
    list: Seq<usize>,
    sorted: Seq<Entry>,
)
    requires
        0 <= x < features.len() <= usize::MAX,
        list.no_duplicates(),
        below(list, features.len() as int),
        !list.contains(x as usize),
        same_items(scored::<D, ID>(features, x as usize, list), sorted),
        by_distance(sorted),
    ensures
        sound_entries::<D, ID>(features, x, sorted),
        sorted.len() == list.len(),
{
    let raw = scored::<D, ID>(features, x as usize, list);
    assert(distinct(raw));
    assert(within(raw, features.len() as int));
    lemma_same_entries(raw, sorted);
    assert forall|k: int| 0 <= k < sorted.len() implies (#[trigger] sorted[k]).0 != x && between::<
        D,
        ID,
    >(features, x, sorted[k]) by {
        assert(sorted.contains(sorted[k]));
        let j = choose|j: int| 0 <= j < raw.len() && raw[j] == sorted[k];
        assert(list.contains(list[j]));
    }
}

/// The neighbourhood of `x` at a random start.
fn start_random<D: DistanceAlgorithm<ID>, ID>(
    features: &[ID],
    distance: &D,
    s: usize,
    x: usize,
    rng: &mut StdRng,
) -> (h: Nhood)
    requires
        all_admitted::<D, ID>(features@),
        x < features@.len(),
        s < features@.len(),
    ensures
        random_hood::<D, ID>(features@, s as int, x as int, h@),
        sound_hood::<D, ID>(features@, x as int, h@),
{
    let n: usize = features.len();
    let nn_new: Vec<usize> = random_others(n, x, s, rng);
    let mut list: Vec<Entry> = score_all(features, distance, x, &nn_new);
    sort_by_distance(&mut list);
    proof {
        lemma_scored_sound::<D, ID>(features@, x as int, nn_new@, list@);
    }
    let pool: Vec<Marked> = mark_all(&list);
    Nhood { pool, nn_new, nn_old: Vec::new(), rnn_new: Vec::new(), rnn_old: Vec::new(), m: 0 }
}

/// Putting a further node into a sound list keeps it sound.
proof fn lemma_top_up<D: DistanceAlgorithm<ID>, ID>(
    features: Seq<ID>,
    x: int,
    list: Seq<Entry>,
    y: usize,
)
    requires
        sound_entries::<D, ID>(features, x, list),
        0 <= x < features.len(),
        y < features.len(),
        y != x,
        !lists(list, y),
    ensures
        ({
            let d = D::distance(features[x], features[y as int]);
            let more = list.insert(rank(list, d), (y, d));
            &&& sound_entries::<D, ID>(features, x, more)
            &&& more.len() == list.len() + 1
            &&& 0 <= rank(list, d) <= list.len()
            &&& forall|z: usize|
                #![trigger lists(more, z)]
                #![trigger lists(list, z)]
                lists(more, z) <==> (lists(list, z) || z == y)
        }),
{
    let d = D::distance(features[x], features[y as int]);
    let e = (y, d);
    lemma_insert_sorted(list, e);
    let r = rank(list, d);
    let more = list.insert(r, e);
    lemma_insert_distinct(list, r, e);
    assert forall|k: int| 0 <= k < more.len() implies ({
        &&& (#[trigger] more[k]).0 < features.len()
        &&& more[k].0 != x
        &&& between::<D, ID>(features, x, more[k])
    }) by {
        if k < r {
            assert(more[k] == list[k]);
        } else if k > r {
            assert(more[k] == list[k - 1]);
        }
    }
}

/// What holds while a list around `x` is topped up.
spec fn topping<D: DistanceAlgorithm<ID>, ID>(
    features: Seq<ID>,
    x: int,
    kept: Seq<Entry>,
    extra: Seq<usize>,
    list: Seq<Entry>,
) -> bool {
    &&& sound_entries::<D, ID>(features, x, list)
    &&& list == topped::<D, ID>(features, x, kept, extra)
    &&& list.len() == kept.len() + extra.len()
    &&& fresh_nodes(kept, x, extra, features.len() as int)
    &&& forall|z: usize| #[trigger] lists(list, z) <==> (lists(kept, z) || extra.contains(z))
}

proof fn lemma_topping_step<D: DistanceAlgorithm<ID>, ID>(
    features: Seq<ID>,
    x: int,
    kept: Seq<Entry>,
    extra: Seq<usize>,
    list: Seq<Entry>,
    y: usize,
)
    requires
        topping::<D, ID>(features, x, kept, extra, list),
        0 <= x < features.len(),
        y < features.len(),
        y != x,
        !lists(list, y),
    ensures
        ({
            let d = D::distance(features[x], features[y as int]);
            topping::<D, ID>(
                features,
                x,
                kept,
                extra.push(y),
                list.insert(rank(list, d), (y, d)),
            )
        }),
{
    let d = D::distance(features[x], features[y as int]);
    let more = list.insert(rank(list, d), (y, d));
    let extra2 = extra.push(y);
    lemma_top_up::<D, ID>(features, x, list, y);
    assert(extra2.drop_last() =~= extra);
    assert(extra2.last() == y);
    assert(!extra.contains(y) && !lists(kept, y));
    assert(fresh_nodes(kept, x, extra2, features.len() as int)) by {
        assert forall|i: int| 0 <= i < extra2.len() implies (#[trigger] extra2[i]) != x && !lists(
            kept,
            extra2[i],
        ) by {
            if i < extra.len() {
                assert(extra2[i] == extra[i]);
            }
        }
        assert forall|i: int, j: int|
            0 <= i < extra2.len() && 0 <= j < extra2.len() && i != j implies extra2[i]
            != extra2[j] by {
            if i < extra.len() {
                assert(extra2[i] == extra[i]);
                assert(extra.contains(extra[i]));
            }
            if j < extra.len() {
                assert(extra2[j] == extra[j]);
                assert(extra.contains(extra[j]));
            }
        }
    }
    assert forall|z: usize| #[trigger] lists(more, z) <==> (lists(kept, z) || extra2.contains(
        z,
    )) by {
        assert(lists(list, z) <==> (lists(kept, z) || extra.contains(z)));
        assert(extra2[extra.len() as int] == y);
        if extra.contains(z) {
            let k = choose|k: int| 0 <= k < extra.len() && extra[k] == z;
            assert(extra2[k] == z);
        }
        if extra2.contains(z) && z != y {
            let k = choose|k: int| 0 <= k < extra2.len() && extra2[k] == z;
            assert(extra[k] == z);
        }
    }
}

/// Tops a list around `x` up to `want` nodes with random ones. After `u64::MAX`
/// draws, what is still missing is taken in order.
fn top_up<D: DistanceAlgorithm<ID>, ID>(
    features: &[ID],
    distance: &D,
    x: usize,
    want: usize,
    list: &mut Vec<Entry>,
    rng: &mut StdRng,
)
    requires
        all_admitted::<D, ID>(features@),
        x < features@.len(),
        want < features@.len(),
        sound_entries::<D, ID>(features@, x as int, old(list)@),
    ensures
        sound_entries::<D, ID>(features@, x as int, final(list)@),
        exists|extra: Seq<usize>|
            {
                &&& #[trigger] fresh_nodes(old(list)@, x as int, extra, features@.len() as int)
                &&& extra.len() == greater(want - old(list)@.len(), 0)
                &&& final(list)@ == topped::<D, ID>(features@, x as int, old(list)@, extra)
            },
{
    let n: usize = features.len();
    let ghost kept = list@;
    let ghost mut extra: Seq<usize> = Seq::empty();
    let mut budget: u64 = u64::MAX;
    while list.len() < want && budget > 0
        invariant
            n == features@.len(),
            all_admitted::<D, ID>(features@),
            x < n,
            want < n,
            topping::<D, ID>(features@, x as int, kept, extra, list@),
            extra.len() > 0 ==> list@.len() <= want,
        decreases budget,
    {
        budget = budget - 1;
        let y: usize = random_index(rng, n);
        if y != x && !lists_point(list, y) {
            proof {
                lemma_topping_step::<D, ID>(features@, x as int, kept, extra, list@, y);
                lemma_top_up::<D, ID>(features@, x as int, list@, y);
                extra = extra.push(y);
            }
            let d: u32 = distance.calculate_distance(&features[x], &features[y]);
            let pos: usize = rank_of(list, d);
            list.insert(pos, (y, d));
        }
    }
    let mut next: usize = 0;
    while list.len() < want && next < n
        invariant
            n == features@.len(),
            all_admitted::<D, ID>(features@),
            x < n,
            want < n,
            next <= n,
            topping::<D, ID>(features@, x as int, kept, extra, list@),
            extra.len() > 0 ==> list@.len() <= want,
            forall|y: usize| y < next ==> y == x || #[trigger] lists(list@, y),
        decreases n - next,
    {
        let y: usize = next;
        if y != x && !lists_point(list, y) {
            proof {
                lemma_topping_step::<D, ID>(features@, x as int, kept, extra, list@, y);
                lemma_top_up::<D, ID>(features@, x as int, list@, y);
                extra = extra.push(y);
            }
            let d: u32 = distance.calculate_distance(&features[x], &features[y]);
            let pos: usize = rank_of(list, d);
            list.insert(pos, (y, d));
        }
        next = next + 1;
    }
    proof {
        if list@.len() < want {
            let all = points(list@).push(x);
            lemma_one_missing(all, n as nat);
            let z = choose|z: usize| z < n && !all.contains(z);
            assert(all[list@.len() as int] == x);
            assert(lists(list@, z));
            let k = choose|k: int| 0 <= k < list@.len() && (#[trigger] list@[k]).0 == z;
            assert(all[k] == z);
        }
    }
}

/// The points of the first `s` entries.
fn first_points(list: &Vec<Entry>, s: usize) -> (out: Vec<usize>)
    ensures
        out@ == cut(points(list@), s as int),
{
    let mut out: Vec<usize> = Vec::new();
    let mut i: usize = 0;
    while i < list.len() && i < s
        invariant
            i <= list@.len(),
            i <= s,
            out@ =~= points(list@).take(i as int),
        decreases list@.len() - i,
    {
        out.push(list[i].0);
        i = i + 1;
    }
    assert(out@ =~= cut(points(list@), s as int));
    out
}

/// The neighbourhood of `x` at a start from `candidates`.
fn start_from<D: DistanceAlgorithm<ID>, ID>(
    features: &[ID],
    distance: &D,
    params: NndParams,
    x: usize,
    candidates: &Vec<usize>,
    rng: &mut StdRng,
) -> (h: Nhood)
    requires
        all_admitted::<D, ID>(features@),
        x < features@.len(),
        ascending(candidates@),
        below(candidates@, features@.len() as int),
        !candidates@.contains(x),
    ensures
        tree_hood::<D, ID>(features@, params, x as int, candidates@, h@),
        sound_hood::<D, ID>(features@, x as int, h@),
{
    let n: usize = features.len();
    let mut list: Vec<Entry> = score_all(features, distance, x, candidates);
    sort_by_distance(&mut list);
    let ghost sorted = list@;
    proof {
        lemma_scored_sound::<D, ID>(features@, x as int, candidates@, sorted);
    }
    if list.len() > params.l {
        list.truncate(params.l);
        proof {
            assert(list@ =~= sorted.take(params.l as int));
            lemma_shorter_sound::<D, ID>(features@, x as int, sorted, params.l as int);
        }
    }
    let ghost kept = list@;
    let want: usize = if params.s < n - 1 {
        params.s
    } else {
        n - 1
    };
    top_up(features, distance, x, want, &mut list, rng);
    let nn_new: Vec<usize> = first_points(&list, params.s);
    let pool: Vec<Marked> = mark_all(&list);
    let h = Nhood {
        pool,
        nn_new,
        nn_old: Vec::new(),
        rnn_new: Vec::new(),
        rnn_old: Vec::new(),
        m: 0,
    };
    proof {
        let extra = choose|extra: Seq<usize>|
            {
                &&& #[trigger] fresh_nodes(kept, x as int, extra, n as int)
                &&& extra.len() == greater(want - kept.len(), 0)
                &&& list@ == topped::<D, ID>(features@, x as int, kept, extra)
            };
        assert(kept == cut(sorted, params.l as int));
        assert(same_items(scored::<D, ID>(features@, x, candidates@), sorted));
        assert(fresh_nodes(cut(sorted, params.l as int), x as int, extra, n as int));
        assert(untouched(h@));
        assert(unmarked(h@.pool) == list@);
        assert(h@.nn_new == cut(points(unmarked(h@.pool)), params.s as int));
        assert(extra.len() == greater(
            lesser(params.s as int, features@.len() - 1) - cut(sorted, params.l as int).len(),
            0,
        ));
        assert((x as int) as usize == x);
        assert(tree_hood::<D, ID>(features@, params, x as int, candidates@, h@));
        assert forall|i: int| 0 <= i < h.nn_new@.len() implies (#[trigger] h.nn_new@[i]) < n by {
            assert(h.nn_new@[i] == points(list@)[i]);
            assert(list@[i].0 < n);
        }
    }
    h
}

// ---------------------------------------------------------------------------
// The descent
// ---------------------------------------------------------------------------

/// The nearest `k` of a pool, without marks.
fn nearest_entries(pool: &Vec<Marked>, k: usize) -> (out: Vec<Entry>)
    ensures
        out@ == cut(unmarked(pool@), k as int),
{
    let mut out: Vec<Entry> = Vec::new();
    let mut i: usize = 0;
    while i < pool.len() && i < k
        invariant
            i <= pool@.len(),
            i <= k,
            out@ =~= unmarked(pool@).take(i as int),
        decreases pool@.len() - i,
    {
        out.push((pool[i].0, pool[i].1));
        i = i + 1;
    }
    assert(out@ =~= cut(unmarked(pool@), k as int));
    out
}

/// Computes a nearest-neighbour graph over borrowed points.
pub struct NNDescent<'a, D, ID> where D: DistanceAlgorithm<ID> + Default {
    features: &'a [ID],
    graph: Vec<Nhood>,
    distance: D,
    prng: Prng,
    params: NndParams,
}

impl<'a, D, ID> NNDescent<'a, D, ID> where D: DistanceAlgorithm<ID> + Default {
    /// The points.
    pub closed spec fn points_over(&self) -> Seq<ID> {
        self.features@
    }

    /// The sizes.
    pub closed spec fn sizes(&self) -> NndParams {
        self.params
    }

    /// The neighbourhoods as they are now.
    pub closed spec fn state(&self) -> Seq<Hood> {
        hoods(self.graph@)
    }

    /// The number that the generator was seeded with.
    pub closed spec fn seed(&self) -> u64 {
        self.prng.origin()
    }

    /// The state of the generator.
    pub closed spec fn generator_state(&self) -> StdRng {
        self.prng.state()
    }

    /// A descent over `features` that has not started yet.
    pub fn new(features: &'a [ID], params: NndParams) -> (r: Self)
        ensures
            r.points_over() == features@,
            r.sizes() == params,
            r.state().len() == 0,
            r.seed() == 42,
            r.generator_state() == seeded_state(42),
    {
        NNDescent {
            features,
            graph: Vec::new(),
            distance: D::default(),
            prng: Prng::seeded(42),
            params,
        }
    }

    /// Starts the generator over from `seed`.
    pub fn set_seed(&mut self, seed: u64)
        ensures
            final(self).seed() == seed,
            final(self).generator_state() == seeded_state(seed),
            final(self).points_over() == old(self).points_over(),
            final(self).sizes() == old(self).sizes(),
            final(self).state() == old(self).state(),
    {
        self.prng = Prng::seeded(seed);
    }

    /// Starts over from random neighbourhoods.
    fn initialize_graph(&mut self)
        requires
            all_admitted::<D, ID>(old(self).points_over()),
            old(self).points_over().len() > 0 ==> old(self).sizes().s < old(
                self,
            ).points_over().len(),
        ensures
            final(self).points_over() == old(self).points_over(),
            final(self).sizes() == old(self).sizes(),
            final(self).seed() == old(self).seed(),
            random_start::<D, ID>(
                old(self).points_over(),
                old(self).sizes().s as int,
                final(self).state(),
            ),
            sound_hoods::<D, ID>(old(self).points_over(), final(self).state()),
    {
        let n: usize = self.features.len();
        let mut graph: Vec<Nhood> = Vec::with_capacity(n);
        let mut x: usize = 0;
        while x < n
            invariant
                n == self.features@.len(),
                self.features@ == old(self).points_over(),
                self.params == old(self).sizes(),
                self.prng.origin() == old(self).seed(),
                all_admitted::<D, ID>(self.features@),
                n > 0 ==> self.params.s < n,
                x <= n,
                graph@.len() == x,
                forall|i: int|
                    0 <= i < x ==> random_hood::<D, ID>(
                        self.features@,
                        self.params.s as int,
                        i,
                        #[trigger] hoods(graph@)[i],
                    ) && sound_hood::<D, ID>(self.features@, i, hoods(graph@)[i]),
            decreases n - x,
        {
            let ghost before = hoods(graph@);
            let h: Nhood = start_random(
                self.features,
                &self.distance,
                self.params.s,
                x,
                self.prng.generator(),
            );
            graph.push(h);
            proof {
                let now = hoods(graph@);
                assert forall|i: int| 0 <= i < x + 1 implies random_hood::<D, ID>(
                    self.features@,
                    self.params.s as int,
                    i,
                    #[trigger] now[i],
                ) && sound_hood::<D, ID>(self.features@, i, now[i]) by {
                    if i < x {
                        assert(now[i] == before[i]);
                    }
                }
            }
            x = x + 1;
        }
        self.graph = graph;
    }

    /// Starts over from the candidates of `n_trees` vantage-point trees.
    fn initialize_graph_metric_tree(&mut self, n_trees: usize, leaf_size: usize)
        requires
            all_admitted::<D, ID>(old(self).points_over()),
        ensures
            final(self).points_over() == old(self).points_over(),
            final(self).sizes() == old(self).sizes(),
            final(self).seed() == old(self).seed(),
            tree_start::<D, ID>(
                old(self).points_over(),
                old(self).sizes(),
                greater(n_trees as int, 1),
                greater(leaf_size as int, 2),
                final(self).state(),
            ),
            sound_hoods::<D, ID>(old(self).points_over(), final(self).state()),
    {
        let n: usize = self.features.len();
        let mt = MetricTreeInit::<D, ID>::new(self.features, n_trees, leaf_size);
        let candidates: Vec<Vec<usize>> = mt.candidate_neighbors(self.prng.generator());
        let mut graph: Vec<Nhood> = Vec::with_capacity(n);
        let mut x: usize = 0;
        while x < n
            invariant
                n == self.features@.len(),
                self.features@ == old(self).points_over(),
                self.params == old(self).sizes(),
                self.prng.origin() == old(self).seed(),
                all_admitted::<D, ID>(self.features@),
                x <= n,
                graph@.len() == x,
                candidates@.len() == n,
                forall|p: int|
                    0 <= p < n ==> {
                        &&& ascending((#[trigger] candidates@[p])@)
                        &&& below(candidates@[p]@, n as int)
                        &&& !candidates@[p]@.contains(p as usize)
                    },
                forall|i: int|
                    0 <= i < x ==> tree_hood::<D, ID>(
                        self.features@,
                        self.params,
                        i,
                        candidates@[i]@,
                        #[trigger] hoods(graph@)[i],
                    ) && sound_hood::<D, ID>(self.features@, i, hoods(graph@)[i]),
            decreases n - x,
        {
            let ghost before = hoods(graph@);
            let h: Nhood = start_from(
                self.features,
                &self.distance,
                self.params,
                x,
                &candidates[x],
                self.prng.generator(),
            );
            graph.push(h);
            proof {
                let now = hoods(graph@);
                assert forall|i: int| 0 <= i < x + 1 implies tree_hood::<D, ID>(
                    self.features@,
                    self.params,
                    i,
                    candidates@[i]@,
                    #[trigger] now[i],
                ) && sound_hood::<D, ID>(self.features@, i, now[i]) by {
                    if i < x {
                        assert(now[i] == before[i]);
                    }
                }
            }
            x = x + 1;
        }
        self.graph = graph;
        proof {
            if n > 0 {
                let lists = lists_of(candidates@);
                let trees = choose|trees: Seq<Seq<Seq<usize>>>| #[trigger]
                    forest_outcome::<D, ID>(
                        mt.points_over(),
                        mt.trees() as int,
                        mt.leaf_cap() as int,
                        trees,
                        lists,
                    );
                assert(forest_outcome::<D, ID>(
                    self.features@,
                    greater(n_trees as int, 1),
                    greater(leaf_size as int, 2),
                    trees,
                    lists,
                ));
                assert forall|i: int| 0 <= i < n implies tree_hood::<D, ID>(
                    self.features@,
                    self.params,
                    i,
                    lists[i],
                    #[trigger] hoods(self.graph@)[i],
                ) by {}
            }
        }
    }

    /// `iter` rounds, then the nearest neighbours of every point.
    fn descend(&mut self, iter: usize) -> (r: Vec<Vec<Entry>>)
        requires
            all_admitted::<D, ID>(old(self).points_over()),
            sound_hoods::<D, ID>(old(self).points_over(), old(self).state()),
        ensures
            final(self).points_over() == old(self).points_over(),
            final(self).sizes() == old(self).sizes(),
            final(self).seed() == old(self).seed(),
            exists|trace: Seq<Seq<Hood>>|
                {
                    &&& #[trigger] descent::<D, ID>(
                        old(self).points_over(),
                        old(self).sizes(),
                        iter as int,
                        trace,
                    )
                    &&& trace[0] == old(self).state()
                    &&& trace.last() == final(self).state()
                },
            edge_lists(r@) == nearest(final(self).state(), old(self).sizes().k as int),
            sound_graph::<D, ID>(
                old(self).points_over(),
                old(self).sizes().k as int,
                edge_lists(r@),
            ),
    {
        let n: usize = self.features.len();
        let ghost mut trace: Seq<Seq<Hood>> = seq![hoods(self.graph@)];
        let mut it: usize = 0;
        while it < iter
            invariant
                self.features@ == old(self).points_over(),
                self.params == old(self).sizes(),
                self.prng.origin() == old(self).seed(),
                all_admitted::<D, ID>(self.features@),
                sound_hoods::<D, ID>(self.features@, hoods(self.graph@)),
                it <= iter,
                descent::<D, ID>(self.features@, self.params, it as int, trace),
                trace[0] == old(self).state(),
                trace.last() == hoods(self.graph@),
            decreases iter - it,
        {
            let ghost before = trace;
            join_hoods(self.features, &mut self.graph, &self.distance, self.params.l);
            renew_hoods::<D, ID>(
                self.features,
                &mut self.graph,
                self.params,
                self.prng.generator(),
            );
            proof {
                trace = trace.push(hoods(self.graph@));
                assert forall|i: int, j: int| 0 <= i < it + 1 && j == i + 1 implies round::<D, ID>(
                    self.features@,
                    self.params,
                    #[trigger] trace[i],
                    #[trigger] trace[j],
                ) by {
                    if j < before.len() {
                        assert(trace[i] == before[i]);
                        assert(trace[j] == before[j]);
                    } else {
                        assert(trace[i] == before.last());
                    }
                }
            }
            it = it + 1;
        }
        let ghost hs = hoods(self.graph@);
        let mut out: Vec<Vec<Entry>> = Vec::with_capacity(n);
        let mut x: usize = 0;
        while x < n
            invariant
                n == self.features@.len(),
                hs == hoods(self.graph@),
                sound_hoods::<D, ID>(self.features@, hs),
                x <= n,
                edge_lists(out@) =~= nearest(hs, self.params.k as int).take(x as int),
            decreases n - x,
        {
            assert(hs[x as int] == self.graph@[x as int]@);
            let ghost before = edge_lists(out@);
            let list: Vec<Entry> = nearest_entries(&self.graph[x].pool, self.params.k);
            let ghost entries = list@;
            out.push(list);
            assert(edge_lists(out@) =~= before.push(entries));
            x = x + 1;
        }
        proof {
            let g = edge_lists(out@);
            assert(g =~= nearest(hs, self.params.k as int));
            assert forall|x: int| 0 <= x < g.len() implies (#[trigger] g[x]).len()
                <= self.params.k && sound_entries::<D, ID>(self.features@, x, g[x]) by {
                assert(sound_hood::<D, ID>(self.features@, x, hs[x]));
                let p = unmarked(hs[x].pool);
                if p.len() > self.params.k {
                    lemma_shorter_sound::<D, ID>(self.features@, x, p, self.params.k as int);
                }
            }
        }
        out
    }

    /// The nearest neighbours of every point after `iter` rounds from a random
    /// start.
    pub fn build(&mut self, iter: usize) -> (r: Vec<Vec<Entry>>)
        requires
            all_admitted::<D, ID>(old(self).points_over()),
            old(self).points_over().len() > 0 ==> old(self).sizes().s < old(
                self,
            ).points_over().len(),
        ensures
            final(self).points_over() == old(self).points_over(),
            final(self).sizes() == old(self).sizes(),
            final(self).seed() == old(self).seed(),
            exists|trace: Seq<Seq<Hood>>|
                {
                    &&& #[trigger] descent::<D, ID>(
                        old(self).points_over(),
                        old(self).sizes(),
                        iter as int,
                        trace,
                    )
                    &&& random_start::<D, ID>(
                        old(self).points_over(),
                        old(self).sizes().s as int,
                        trace[0],
                    )
                    &&& sound_hoods::<D, ID>(old(self).points_over(), trace[0])
                    &&& trace.last() == final(self).state()
                },
            edge_lists(r@) == nearest(final(self).state(), old(self).sizes().k as int),
            sound_graph::<D, ID>(
                old(self).points_over(),
                old(self).sizes().k as int,
                edge_lists(r@),
            ),
    {
        self.initialize_graph();
        self.descend(iter)
    }

    /// The nearest neighbours of every point after `iter` rounds from the
    /// candidates of `n_trees` vantage-point trees with leaves of `leaf_size`.
    pub fn build_with_metric_tree(
        &mut self,
        iter: usize,
        n_trees: usize,
        leaf_size: usize,
    ) -> (r: Vec<Vec<Entry>>)
        requires
            all_admitted::<D, ID>(old(self).points_over()),
        ensures
            final(self).points_over() == old(self).points_over(),
            final(self).sizes() == old(self).sizes(),
            final(self).seed() == old(self).seed(),
            exists|trace: Seq<Seq<Hood>>|
                {
                    &&& #[trigger] descent::<D, ID>(
                        old(self).points_over(),
                        old(self).sizes(),
                        iter as int,
                        trace,
                    )
                    &&& tree_start::<D, ID>(
                        old(self).points_over(),
                        old(self).sizes(),
                        greater(n_trees as int, 1),
                        greater(leaf_size as int, 2),
                        trace[0],
                    )
                    &&& sound_hoods::<D, ID>(old(self).points_over(), trace[0])
                    &&& trace.last() == final(self).state()
                },
            edge_lists(r@) == nearest(final(self).state(), old(self).sizes().k as int),
            sound_graph::<D, ID>(
                old(self).points_over(),
                old(self).sizes().k as int,
                edge_lists(r@),
            ),
    {
        self.initialize_graph_metric_tree(n_trees, leaf_size);
        self.descend(iter)
    }
}

// ---------------------------------------------------------------------------
// Laws
// ---------------------------------------------------------------------------

/// A round makes no neighbour of a node worse: among the first `l` places of a
/// pool every distance stays or gets less, whatever was drawn.
pub proof fn lemma_round_no_worse<D: DistanceAlgorithm<ID>, ID>(
    features: Seq<ID>,
    params: NndParams,
    before: Seq<Hood>,
    after: Seq<Hood>,
)
    requires
        sound_hoods::<D, ID>(features, before),
        round::<D, ID>(features, params, before, after),
    ensures
        after.len() == before.len(),
        forall|x: int|
            0 <= x < before.len() ==> no_worse(
                before[x].pool,
                (#[trigger] after[x]).pool,
                params.l as int,
            ),
{
    let l = params.l as int;
    let mid = joined::<D, ID>(features, l, before);
    lemma_join_no_worse::<D, ID>(features, l, before);
    let a = all_windowed(mid, l, params.s as int);
    let (new_picks, old_picks) = choose|new_picks: Seq<int>, old_picks: Seq<int>|
        {
            &&& #[trigger] picks_for(calls(a, mid.len(), true), params.r as int, new_picks)
            &&& #[trigger] picks_for(calls(a, mid.len(), false), params.r as int, old_picks)
            &&& after == renewed(mid, params, new_picks, old_picks)
        };
    assert forall|x: int| 0 <= x < before.len() implies no_worse(
        before[x].pool,
        (#[trigger] after[x]).pool,
        l,
    ) by {
        assert(no_worse(before[x].pool, mid[x].pool, before[x].pool.len() as int));
        let p = before[x].pool;
        let q = mid[x].pool;
        let c = cut(q, l);
        assert(after[x].pool == settled_pool(c, a[x].m));
        assert forall|k: int|
            #![trigger p[k]]
            #![trigger after[x].pool[k]]
            0 <= k < p.len() && k < l implies k < after[x].pool.len() && after[x].pool[k].1
            <= p[k].1 by {
            assert(q[k].1 <= p[k].1);
            assert(c[k] == q[k]);
            assert(after[x].pool[k].1 == c[k].1);
        }
    }
}

/// Soundness goes through a round, whatever was drawn.
proof fn lemma_round_sound<D: DistanceAlgorithm<ID>, ID>(
    features: Seq<ID>,
    params: NndParams,
    before: Seq<Hood>,
    after: Seq<Hood>,
)
    requires
        features.len() <= usize::MAX,
        sound_hoods::<D, ID>(features, before),
        round::<D, ID>(features, params, before, after),
    ensures
        sound_hoods::<D, ID>(features, after),
{
    let mid = joined::<D, ID>(features, params.l as int, before);
    lemma_joined_sound::<D, ID>(features, params.l as int, before);
    let a = all_windowed(mid, params.l as int, params.s as int);
    let (new_picks, old_picks) = choose|new_picks: Seq<int>, old_picks: Seq<int>|
        {
            &&& #[trigger] picks_for(calls(a, mid.len(), true), params.r as int, new_picks)
            &&& #[trigger] picks_for(calls(a, mid.len(), false), params.r as int, old_picks)
            &&& after == renewed(mid, params, new_picks, old_picks)
        };
    lemma_renewed_sound::<D, ID>(features, mid, params, new_picks, old_picks);
}

/// A descent makes no neighbour of a node worse: among the first `l` places of a
/// pool the distance after any number of rounds is no greater than at the start.
pub proof fn lemma_descent_no_worse<D: DistanceAlgorithm<ID>, ID>(
    features: Seq<ID>,
    params: NndParams,
    iter: int,
    trace: Seq<Seq<Hood>>,
    t: int,
)
    requires
        features.len() <= usize::MAX,
        descent::<D, ID>(features, params, iter, trace),
        sound_hoods::<D, ID>(features, trace[0]),
        0 <= t <= iter,
    ensures
        sound_hoods::<D, ID>(features, trace[t]),
        forall|x: int|
            0 <= x < features.len() ==> no_worse(
                trace[0][x].pool,
                (#[trigger] trace[t][x]).pool,
                params.l as int,
            ),
    decreases t,
{
    if t > 0 {
        lemma_descent_no_worse::<D, ID>(features, params, iter, trace, t - 1);
        let a = trace[t - 1];
        let b = trace[t];
        assert(round::<D, ID>(features, params, a, b));
        lemma_round_no_worse::<D, ID>(features, params, a, b);
        lemma_round_sound::<D, ID>(features, params, a, b);
        assert forall|x: int| 0 <= x < features.len() implies no_worse(
            trace[0][x].pool,
            (#[trigger] b[x]).pool,
            params.l as int,
        ) by {
            let p = trace[0][x].pool;
            let q = a[x].pool;
            let r = b[x].pool;
            assert(no_worse(p, q, params.l as int));
            assert(no_worse(q, r, params.l as int));
            assert forall|k: int|
                #![trigger p[k]]
                #![trigger r[k]]
                0 <= k < p.len() && k < params.l implies r[k].1 <= p[k].1 && k < r.len() by {
                assert(q[k].1 <= p[k].1);
                assert(r[k].1 <= q[k].1);
            }
        }
    }
}

} // verus!
